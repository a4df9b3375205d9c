use vstd::prelude::*;

use crate::calendar::Date;
use crate::rollup::{points_wf, Point};
use crate::store::{series_map, upsert, SourceError};
use crate::value::Decimal;

verus! {

/// A row of the source of record: a day and its value, which may be missing.
#[derive(Clone, Copy, Debug)]
pub struct SourceRow {
    pub date: Date,
    pub value: Option<Decimal>,
}

/// A missing value counts as zero.
pub open spec fn row_value(r: SourceRow) -> Decimal {
    match r.value {
        Some(v) => v,
        None => Decimal { units: 0 },
    }
}

/// The value of each day that the rows give; of two rows of one day the later wins.
pub open spec fn rows_map(rows: Seq<SourceRow>) -> Map<Date, Decimal>
    decreases rows.len(),
{
    if rows.len() == 0 {
        Map::empty()
    } else {
        rows_map(rows.drop_last()).insert(rows.last().date, row_value(rows.last()))
    }
}

pub open spec fn rows_valid(rows: Seq<SourceRow>) -> bool {
    forall|i: int| 0 <= i < rows.len() ==> (#[trigger] rows[i]).date.wf()
}

/// The series the rows describe: sorted by day, one point per day, missing values as zero.
/// A row with an invalid date makes the answer malformed.
pub fn points_from_rows(rows: &Vec<SourceRow>) -> (r: Result<Vec<Point>, SourceError>)
    ensures
        r is Ok <==> rows_valid(rows@),
        r is Ok ==> points_wf(r->Ok_0@) && series_map(r->Ok_0@) == rows_map(rows@),
        r is Err ==> r->Err_0 == SourceError::Malformed,
{
    let mut acc: Vec<Point> = Vec::new();
    let mut i: usize = 0;
    while i < rows.len()
        invariant
            0 <= i <= rows.len(),
            points_wf(acc@),
            series_map(acc@) == rows_map(rows@.take(i as int)),
            rows_valid(rows@.take(i as int)),
        decreases rows.len() - i,
    {
        let row = rows[i];
        if !row.date.is_valid() {
            assert(!rows_valid(rows@)) by {
                assert(rows@[i as int] == row);
            }
            return Err(SourceError::Malformed);
        }
        let value = match row.value {
            Some(v) => v,
            None => Decimal { units: 0 },
        };
        let mut single: Vec<Point> = Vec::new();
        single.push(Point { date: row.date, value });
        proof {
            assert(series_map(single@) =~= Map::<Date, Decimal>::empty().insert(row.date, value)) by {
                assert(single@.drop_last() =~= Seq::<Point>::empty());
                assert(series_map(Seq::<Point>::empty()) == Map::<Date, Decimal>::empty());
                assert(single@.last() == Point { date: row.date, value });
            }
        }
        acc = upsert(&acc, &single);
        proof {
            let t = rows@.take(i as int + 1);
            assert(t.drop_last() =~= rows@.take(i as int));
            assert(t.last() == row);
            assert(series_map(acc@) =~= rows_map(t));
            assert forall|k: int| 0 <= k < t.len() implies (#[trigger] t[k]).date.wf() by {
                if k < i {
                    assert(t[k] == rows@.take(i as int)[k]);
                }
            }
        }
        i = i + 1;
    }
    proof {
        assert(rows@.take(rows.len() as int) =~= rows@);
    }
    Ok(acc)
}

} // verus!

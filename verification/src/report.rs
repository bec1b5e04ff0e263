//! The sizing report: one row per canonical model, the identifiers that
//! were not found, and the totals.

use vstd::prelude::*;
use crate::aggregation::aggregate;
use crate::aggregation::canonical_demand;
use crate::aggregation::lemma_canonical_demand;
use crate::aggregation::lemma_nothing_lost;
use crate::aggregation::resolves_to;
use crate::aggregation::unresolved;
use crate::catalog::canonical_model;
use crate::catalog::lemma_canonical_is_found;
use crate::catalog::lookup;
use crate::catalog::Catalog;
use crate::catalog::MachineData;
use crate::catalog::RecordView;
use crate::demand::has_line;
use crate::demand::lines_of;
use crate::aggregation::model_lines;
use crate::demand::Demand;
use crate::demand::DemandEntry;
use crate::fixed::fits;
use crate::fixed::round_quotient;
use crate::fixed::round_to_units;
use crate::fixed::rounded_quotient;
use crate::fixed::rounded_units;
use crate::fixed::Wide;
use crate::demand::total_quantity;
use crate::interpolation::capacity_at;
use crate::interpolation::capacity_times;
use crate::interpolation::lemma_capacity_times_close;
use crate::interpolation::lemma_capacity_within;
use crate::interpolation::modest_points;
use crate::interpolation::CAPACITY_LIMIT;

verus! {

/// One row of the report: a model, how many of it, and its capacities
/// multiplied by that quantity.  The capacity at design temperature is
/// multiplied before it is rounded to the thousandth.
#[derive(Debug)]
pub struct ReportRow {
    pub model_number: String,
    pub quantity: u128,
    pub ahri: Option<u64>,
    pub btu_95_min: i128,
    pub btu_5_max: i128,
    pub btu_17_max: i128,
    pub btu_17_rated: i128,
    pub btu_design_max: i128,
}

/// What a [`ReportRow`] holds, as mathematical values.
pub struct RowView {
    pub model_number: Seq<char>,
    pub quantity: nat,
    pub ahri: Option<u64>,
    pub btu_95_min: int,
    pub btu_5_max: int,
    pub btu_17_max: int,
    pub btu_17_rated: int,
    pub btu_design_max: int,
}

impl View for ReportRow {
    type V = RowView;

    open spec fn view(&self) -> RowView {
        RowView {
            model_number: self.model_number@,
            quantity: self.quantity as nat,
            ahri: self.ahri,
            btu_95_min: self.btu_95_min as int,
            btu_5_max: self.btu_5_max as int,
            btu_17_max: self.btu_17_max as int,
            btu_17_rated: self.btu_17_rated as int,
            btu_design_max: self.btu_design_max as int,
        }
    }
}

/// The five capacity columns of the report.
#[derive(Debug, Clone, Copy, PartialEq, Eq, Structural)]
pub enum Column {
    Btu95Min,
    Btu5Max,
    Btu17Max,
    Btu17Rated,
    BtuDesignMax,
}

/// The sums of the five capacity columns over all rows.
#[derive(Debug, Clone, Copy, PartialEq, Eq, Structural)]
pub struct CalculationTotals {
    pub total_btu_95_min: i128,
    pub total_btu_5_max: i128,
    pub total_btu_17_max: i128,
    pub total_btu_17_rated: i128,
    pub total_btu_design_max: i128,
}

impl CalculationTotals {
    /// Totals over no rows: all zero.
    pub fn new() -> (totals: CalculationTotals)
        ensures
            totals_match(totals, Seq::<RowView>::empty()),
            totals == (CalculationTotals {
                total_btu_95_min: 0,
                total_btu_5_max: 0,
                total_btu_17_max: 0,
                total_btu_17_rated: 0,
                total_btu_design_max: 0,
            }),
    {
        CalculationTotals {
            total_btu_95_min: 0,
            total_btu_5_max: 0,
            total_btu_17_max: 0,
            total_btu_17_rated: 0,
            total_btu_design_max: 0,
        }
    }
}

impl Default for CalculationTotals {
    fn default() -> (totals: CalculationTotals)
        ensures
            totals == (CalculationTotals {
                total_btu_95_min: 0,
                total_btu_5_max: 0,
                total_btu_17_max: 0,
                total_btu_17_rated: 0,
                total_btu_design_max: 0,
            }),
    {
        CalculationTotals::new()
    }
}

/// The report of one calculation.
#[derive(Debug)]
pub struct Report {
    /// One row per canonical model, in ascending order of model number.
    pub rows: Vec<ReportRow>,
    /// The lines that found no record; they count for nothing in the totals.
    pub not_found: Vec<DemandEntry>,
    pub totals: CalculationTotals,
}

/// A reading, or 0 where it is absent.
pub open spec fn or_zero(reading: Option<i64>) -> int {
    match reading {
        Some(value) => value as int,
        None => 0,
    }
}

/// The row for `quantity` units of `record` at design temperature `t`.
pub open spec fn row_for(record: RecordView, quantity: nat, t: int) -> RowView {
    RowView {
        model_number: record.model_number,
        quantity,
        ahri: record.ahri,
        btu_95_min: or_zero(record.btu_95_min) * quantity,
        btu_5_max: or_zero(record.btu_5_max) * quantity,
        btu_17_max: or_zero(record.btu_17_max) * quantity,
        btu_17_rated: or_zero(record.btu_17_rated) * quantity,
        btu_design_max: capacity_times(record, t, quantity as int),
    }
}

/// The rows for per-model quantities, in their order: one for each model
/// number that finds a record, made from that record.
pub open spec fn report_rows(
    resolved: Seq<(Seq<char>, nat)>,
    records: Seq<RecordView>,
    t: int,
) -> Seq<RowView>
    decreases resolved.len(),
{
    if resolved.len() == 0 {
        Seq::empty()
    } else {
        let rest = report_rows(resolved.drop_last(), records, t);
        match lookup(records, resolved.last().0) {
            Some(record) => rest.push(row_for(record, resolved.last().1, t)),
            None => rest,
        }
    }
}

/// The value of a row in a column.
pub open spec fn column_value(row: RowView, column: Column) -> int {
    match column {
        Column::Btu95Min => row.btu_95_min,
        Column::Btu5Max => row.btu_5_max,
        Column::Btu17Max => row.btu_17_max,
        Column::Btu17Rated => row.btu_17_rated,
        Column::BtuDesignMax => row.btu_design_max,
    }
}

/// The sum of a column over rows.
pub open spec fn column_sum(rows: Seq<RowView>, column: Column) -> int
    decreases rows.len(),
{
    if rows.len() == 0 {
        0
    } else {
        column_sum(rows.drop_last(), column) + column_value(rows.last(), column)
    }
}

/// The capacity of `quantity` units of a record in a column: the reading
/// times the quantity, an absent reading counting as 0; in the design
/// column, the exact capacity at temperature `t` times the quantity, rounded
/// towards negative infinity after the multiplication.
pub open spec fn model_value(record: RecordView, column: Column, t: int, quantity: nat) -> int {
    match column {
        Column::Btu95Min => or_zero(record.btu_95_min) * quantity,
        Column::Btu5Max => or_zero(record.btu_5_max) * quantity,
        Column::Btu17Max => or_zero(record.btu_17_max) * quantity,
        Column::Btu17Rated => or_zero(record.btu_17_rated) * quantity,
        Column::BtuDesignMax => capacity_times(record, t, quantity as int),
    }
}

/// The sum, over per-model quantities, of the capacity of the quantity of
/// the record that the model number finds.
pub open spec fn model_sum(
    resolved: Seq<(Seq<char>, nat)>,
    records: Seq<RecordView>,
    column: Column,
    t: int,
) -> int
    decreases resolved.len(),
{
    if resolved.len() == 0 {
        0
    } else {
        model_sum(resolved.drop_last(), records, column, t) + match lookup(
            records,
            resolved.last().0,
        ) {
            Some(record) => model_value(record, column, t, resolved.last().1),
            None => 0,
        }
    }
}

/// Whether each total is the sum over the models of the capacity of their
/// quantity.
pub open spec fn totals_sum_models(
    totals: CalculationTotals,
    resolved: Seq<(Seq<char>, nat)>,
    records: Seq<RecordView>,
    t: int,
) -> bool {
    &&& totals.total_btu_95_min == model_sum(resolved, records, Column::Btu95Min, t)
    &&& totals.total_btu_5_max == model_sum(resolved, records, Column::Btu5Max, t)
    &&& totals.total_btu_17_max == model_sum(resolved, records, Column::Btu17Max, t)
    &&& totals.total_btu_17_rated == model_sum(resolved, records, Column::Btu17Rated, t)
    &&& totals.total_btu_design_max == model_sum(resolved, records, Column::BtuDesignMax, t)
}

/// Summation: the sum of a column over the rows of a report is the sum over
/// the models of the capacity of their quantity.
pub proof fn lemma_column_sums_over_models(
    resolved: Seq<(Seq<char>, nat)>,
    records: Seq<RecordView>,
    column: Column,
    t: int,
)
    ensures
        column_sum(report_rows(resolved, records, t), column) == model_sum(
            resolved,
            records,
            column,
            t,
        ),
    decreases resolved.len(),
{
    if resolved.len() > 0 {
        let head = resolved.drop_last();
        lemma_column_sums_over_models(head, records, column, t);
        let rest = report_rows(head, records, t);
        match lookup(records, resolved.last().0) {
            Some(record) => {
                let row = row_for(record, resolved.last().1, t);
                assert(rest.push(row).drop_last() =~= rest);
                assert(column_value(row, column) == model_value(
                    record,
                    column,
                    t,
                    resolved.last().1,
                ));
            },
            None => {},
        }
    }
}

/// The rows as mathematical values.
pub open spec fn row_views(rows: Seq<ReportRow>) -> Seq<RowView> {
    rows.map_values(|r: ReportRow| r@)
}

/// Whether `totals` holds the sum of each column of `rows`.
pub open spec fn totals_match(totals: CalculationTotals, rows: Seq<RowView>) -> bool {
    &&& totals.total_btu_95_min == column_sum(rows, Column::Btu95Min)
    &&& totals.total_btu_5_max == column_sum(rows, Column::Btu5Max)
    &&& totals.total_btu_17_max == column_sum(rows, Column::Btu17Max)
    &&& totals.total_btu_17_rated == column_sum(rows, Column::Btu17Rated)
    &&& totals.total_btu_design_max == column_sum(rows, Column::BtuDesignMax)
}

/// Whether every value of a row can be held.
pub open spec fn row_fits(row: RowView) -> bool {
    &&& fits(row.btu_95_min)
    &&& fits(row.btu_5_max)
    &&& fits(row.btu_17_max)
    &&& fits(row.btu_17_rated)
    &&& fits(row.btu_design_max)
}

/// Whether the sum of every column over `rows` can be held.
pub open spec fn sums_fit(rows: Seq<RowView>) -> bool {
    &&& fits(column_sum(rows, Column::Btu95Min))
    &&& fits(column_sum(rows, Column::Btu5Max))
    &&& fits(column_sum(rows, Column::Btu17Max))
    &&& fits(column_sum(rows, Column::Btu17Rated))
    &&& fits(column_sum(rows, Column::BtuDesignMax))
}

/// Whether a report of these rows can be held: every value of every row,
/// and the sum of every column over the first rows, however many are taken.
pub open spec fn representable(rows: Seq<RowView>) -> bool
    decreases rows.len(),
{
    rows.len() == 0 || (representable(rows.drop_last()) && row_fits(rows.last()) && sums_fit(rows))
}

/// The rows for the first models of a representable report are
/// representable.
proof fn lemma_representable_prefix(
    resolved: Seq<(Seq<char>, nat)>,
    records: Seq<RecordView>,
    t: int,
    j: int,
)
    requires
        0 <= j <= resolved.len(),
        representable(report_rows(resolved, records, t)),
    ensures
        representable(report_rows(resolved.take(j), records, t)),
    decreases resolved.len() - j,
{
    if j < resolved.len() {
        lemma_representable_prefix(resolved, records, t, j + 1);
        let longer = resolved.take(j + 1);
        assert(longer.drop_last() =~= resolved.take(j));
        let rest = report_rows(resolved.take(j), records, t);
        match lookup(records, longer.last().0) {
            Some(record) => {
                let row = row_for(record, longer.last().1, t);
                assert(rest.push(row).drop_last() =~= rest);
            },
            None => {},
        }
    } else {
        assert(resolved.take(j) =~= resolved);
    }
}

/// A request of at most this many units in all has its report, where
/// readings and design temperature lie within 32 bits.
pub const QUANTITY_OWED: u128 = 0x2000_0000_0000_0000;

/// Whether a value is within the capacity limit times `quantity`.
spec fn within_limit(value: int, quantity: int) -> bool {
    -(CAPACITY_LIMIT * quantity) <= value <= CAPACITY_LIMIT * quantity
}

/// Whether the usable points of every record lie within 32 bits.
pub open spec fn modest_catalog(records: Seq<RecordView>) -> bool {
    forall|i: int| 0 <= i < records.len() ==> modest_points(#[trigger] records[i])
}

/// The capacity of a quantity is within the limit times the quantity, for a
/// record whose usable points lie within 32 bits.
proof fn lemma_value_within(record: RecordView, column: Column, t: int, quantity: nat)
    requires
        modest_points(record),
        i32::MIN <= t <= i32::MAX,
    ensures
        within_limit(model_value(record, column, t, quantity), quantity as int),
{
    lemma_capacity_within(record, t);
    lemma_capacity_times_close(record, t, quantity as int);
    let limit = CAPACITY_LIMIT as int;
    let unit = match column {
        Column::Btu95Min => or_zero(record.btu_95_min),
        Column::Btu5Max => or_zero(record.btu_5_max),
        Column::Btu17Max => or_zero(record.btu_17_max),
        Column::Btu17Rated => or_zero(record.btu_17_rated),
        Column::BtuDesignMax => capacity_at(record, t),
    };
    assert(-(limit * quantity) <= unit * quantity && unit * quantity + quantity <= limit
        * quantity) by (nonlinear_arith)
        requires
            -limit < unit < limit,
            quantity >= 0,
    ;
}

/// Adding a row whose value is within the limit times `more` to rows whose
/// sum is within the limit times `done`: value and sum can be held, and the
/// sum is within the limit times both.
proof fn lemma_column_step(rest: Seq<RowView>, row: RowView, column: Column, done: int, more: int)
    requires
        within_limit(column_sum(rest, column), done),
        within_limit(column_value(row, column), more),
        0 <= done,
        0 <= more,
        done + more <= QUANTITY_OWED,
    ensures
        within_limit(column_sum(rest.push(row), column), done + more),
        fits(column_value(row, column)),
        fits(column_sum(rest.push(row), column)),
{
    let limit = CAPACITY_LIMIT as int;
    assert(limit * (done + more) == limit * done + limit * more && 0 <= limit * more <= limit * (
    done + more) && limit * (done + more) <= limit * 0x2000_0000_0000_0000) by (nonlinear_arith)
        requires
            limit > 0,
            done >= 0,
            more >= 0,
            done + more <= 0x2000_0000_0000_0000,
    ;
    assert(rest.push(row).drop_last() =~= rest);
}

/// The rows for quantities of at most `QUANTITY_OWED` in all can be held,
/// and the sum of each column is within the limit times the quantities.
proof fn lemma_rows_within(resolved: Seq<(Seq<char>, nat)>, records: Seq<RecordView>, t: int)
    requires
        modest_catalog(records),
        i32::MIN <= t <= i32::MAX,
        total_quantity(resolved) <= QUANTITY_OWED,
    ensures
        representable(report_rows(resolved, records, t)),
        within_limit(
            column_sum(report_rows(resolved, records, t), Column::Btu95Min),
            total_quantity(resolved) as int,
        ),
        within_limit(
            column_sum(report_rows(resolved, records, t), Column::Btu5Max),
            total_quantity(resolved) as int,
        ),
        within_limit(
            column_sum(report_rows(resolved, records, t), Column::Btu17Max),
            total_quantity(resolved) as int,
        ),
        within_limit(
            column_sum(report_rows(resolved, records, t), Column::Btu17Rated),
            total_quantity(resolved) as int,
        ),
        within_limit(
            column_sum(report_rows(resolved, records, t), Column::BtuDesignMax),
            total_quantity(resolved) as int,
        ),
    decreases resolved.len(),
{
    let limit = CAPACITY_LIMIT as int;
    if resolved.len() == 0 {
        assert(limit * 0 == 0) by (nonlinear_arith);
    } else {
        let head = resolved.drop_last();
        let rest = report_rows(head, records, t);
        let quantity = resolved.last().1;
        let more = quantity as int;
        let done = total_quantity(head) as int;
        lemma_rows_within(head, records, t);
        match lookup(records, resolved.last().0) {
            Some(record) => {
                let row = row_for(record, quantity, t);
                crate::catalog::lemma_lookup_index(records, resolved.last().0);
                lemma_value_within(record, Column::Btu95Min, t, quantity);
                lemma_value_within(record, Column::Btu5Max, t, quantity);
                lemma_value_within(record, Column::Btu17Max, t, quantity);
                lemma_value_within(record, Column::Btu17Rated, t, quantity);
                lemma_value_within(record, Column::BtuDesignMax, t, quantity);
                lemma_column_step(rest, row, Column::Btu95Min, done, more);
                lemma_column_step(rest, row, Column::Btu5Max, done, more);
                lemma_column_step(rest, row, Column::Btu17Max, done, more);
                lemma_column_step(rest, row, Column::Btu17Rated, done, more);
                lemma_column_step(rest, row, Column::BtuDesignMax, done, more);
                assert(rest.push(row).drop_last() =~= rest);
            },
            None => {
                assert(limit * done <= limit * (done + more)) by (nonlinear_arith)
                    requires
                        limit > 0,
                        more >= 0,
                ;
            },
        }
    }
}

/// Whether a report is owed without looking further: the request holds at
/// most `QUANTITY_OWED` units in all, and the usable points of the catalog
/// and the design temperature lie within 32 bits.
pub open spec fn report_owed(lines: Seq<(Seq<char>, nat)>, records: Seq<RecordView>, t: int) -> bool {
    &&& modest_catalog(records)
    &&& i32::MIN <= t <= i32::MAX
    &&& total_quantity(lines) <= QUANTITY_OWED
}

/// A request of at most `QUANTITY_OWED` units in all has a report that can
/// be held, whenever the usable points of the catalog and the design
/// temperature lie within 32 bits.
pub proof fn lemma_report_owed(lines: Seq<(Seq<char>, nat)>, records: Seq<RecordView>, t: int)
    requires
        modest_catalog(records),
        i32::MIN <= t <= i32::MAX,
        total_quantity(lines) <= QUANTITY_OWED,
    ensures
        representable(report_rows(canonical_demand(lines, records), records, t)),
{
    lemma_nothing_lost(lines, records);
    lemma_rows_within(canonical_demand(lines, records), records, t);
}

/// A reading, or 0 where it is absent.
fn reading_or_zero(reading: Option<i64>) -> (value: Wide)
    ensures
        value@ == or_zero(reading),
{
    match reading {
        Some(v) => Wide::from_i64(v),
        None => Wide { negative: false, magnitude: 0 },
    }
}

/// Makes the row for `quantity` units of a record at a design temperature,
/// unless one of its values is beyond what can be held.
pub fn make_row(record: &MachineData, quantity: u128, design_temp: i64) -> (made: Option<ReportRow>)
    ensures
        match made {
            Some(row) => row@ == row_for(record@, quantity as nat, design_temp as int),
            None => !row_fits(row_for(record@, quantity as nat, design_temp as int)),
        },
{
    let btu_95_min = match reading_or_zero(record.btu_95_min).times(quantity) {
        Some(v) => v,
        None => return None,
    };
    let btu_5_max = match reading_or_zero(record.btu_5_max).times(quantity) {
        Some(v) => v,
        None => return None,
    };
    let btu_17_max = match reading_or_zero(record.btu_17_max).times(quantity) {
        Some(v) => v,
        None => return None,
    };
    let btu_17_rated = match reading_or_zero(record.btu_17_rated).times(quantity) {
        Some(v) => v,
        None => return None,
    };
    let btu_design_max = match record.capacity_of_quantity(design_temp, quantity) {
        Some(v) => v,
        None => return None,
    };
    Some(
        ReportRow {
            model_number: record.model_number.clone(),
            quantity,
            ahri: record.ahri,
            btu_95_min,
            btu_5_max,
            btu_17_max,
            btu_17_rated,
            btu_design_max,
        },
    )
}

/// The totals with the values of a row added, if every sum can be held.
fn add_row(totals: &CalculationTotals, row: &ReportRow) -> (sums: Option<CalculationTotals>)
    ensures
        match sums {
            Some(next) => {
                &&& next.total_btu_95_min == totals.total_btu_95_min + row.btu_95_min
                &&& next.total_btu_5_max == totals.total_btu_5_max + row.btu_5_max
                &&& next.total_btu_17_max == totals.total_btu_17_max + row.btu_17_max
                &&& next.total_btu_17_rated == totals.total_btu_17_rated + row.btu_17_rated
                &&& next.total_btu_design_max == totals.total_btu_design_max + row.btu_design_max
            },
            None => {
                ||| !fits(totals.total_btu_95_min + row.btu_95_min)
                ||| !fits(totals.total_btu_5_max + row.btu_5_max)
                ||| !fits(totals.total_btu_17_max + row.btu_17_max)
                ||| !fits(totals.total_btu_17_rated + row.btu_17_rated)
                ||| !fits(totals.total_btu_design_max + row.btu_design_max)
            },
        },
{
    let total_btu_95_min = match totals.total_btu_95_min.checked_add(row.btu_95_min) {
        Some(v) => v,
        None => return None,
    };
    let total_btu_5_max = match totals.total_btu_5_max.checked_add(row.btu_5_max) {
        Some(v) => v,
        None => return None,
    };
    let total_btu_17_max = match totals.total_btu_17_max.checked_add(row.btu_17_max) {
        Some(v) => v,
        None => return None,
    };
    let total_btu_17_rated = match totals.total_btu_17_rated.checked_add(row.btu_17_rated) {
        Some(v) => v,
        None => return None,
    };
    let total_btu_design_max = match totals.total_btu_design_max.checked_add(row.btu_design_max) {
        Some(v) => v,
        None => return None,
    };
    Some(
        CalculationTotals {
            total_btu_95_min,
            total_btu_5_max,
            total_btu_17_max,
            total_btu_17_rated,
            total_btu_design_max,
        },
    )
}

/// Computes the report for a request against a catalog at a design
/// temperature.
///
/// The request is aggregated per canonical model.  Each model, in ascending
/// order of its number, is looked up again and gives one row: its capacities
/// times the quantity, an absent capacity counting as 0, and its exact
/// capacity at the design temperature times the quantity, rounded down to
/// the thousandth after the multiplication.  The totals are the sums of
/// the five capacity columns over these rows; lines that found no record are
/// listed apart and add nothing.
///
/// There is no report only where it cannot be held: where a value of a row,
/// or the sum of a column over the first rows, lies outside the range of
/// `i128`.  A request of at most [`QUANTITY_OWED`] units in all always has
/// its report where the usable points of the catalog and the design
/// temperature lie within 32 bits.
pub fn perform_calculation(user_input: &Demand, machine_data: &Catalog, design_temp: i64) -> (made:
    Option<Report>)
    requires
        user_input.wf(),
    ensures
        match made {
            Some(report) => {
                &&& representable(
                    report_rows(
                        canonical_demand(user_input@, machine_data@),
                        machine_data@,
                        design_temp as int,
                    ),
                )
                &&& row_views(report.rows@) == report_rows(
                    canonical_demand(user_input@, machine_data@),
                    machine_data@,
                    design_temp as int,
                )
                &&& lines_of(report.not_found@) == unresolved(user_input@, machine_data@)
                &&& totals_match(report.totals, row_views(report.rows@))
                &&& report.rows.len() == canonical_demand(user_input@, machine_data@).len()
                &&& totals_sum_models(
                    report.totals,
                    canonical_demand(user_input@, machine_data@),
                    machine_data@,
                    design_temp as int,
                )
            },
            None => !representable(
                report_rows(
                    canonical_demand(user_input@, machine_data@),
                    machine_data@,
                    design_temp as int,
                ),
            ),
        },
        report_owed(user_input@, machine_data@, design_temp as int) ==> made is Some,
{
    proof {
        if report_owed(user_input@, machine_data@, design_temp as int) {
            lemma_report_owed(user_input@, machine_data@, design_temp as int);
        }
    }
    let aggregation = aggregate(user_input, machine_data);
    let resolved = aggregation.resolved;
    let ghost models = model_lines(resolved@);
    let ghost t = design_temp as int;
    let mut rows: Vec<ReportRow> = Vec::new();
    let mut totals = CalculationTotals::new();
    let mut k: usize = 0;
    proof {
        assert(row_views(rows@) =~= report_rows(models.take(0), machine_data@, t));
    }
    while k < resolved.len()
        invariant
            k <= resolved.len(),
            models == model_lines(resolved@),
            models == canonical_demand(user_input@, machine_data@),
            t == design_temp as int,
            row_views(rows@) == report_rows(models.take(k as int), machine_data@, t),
            totals_match(totals, row_views(rows@)),
            representable(row_views(rows@)),
            report_owed(user_input@, machine_data@, t) ==> representable(
                report_rows(models, machine_data@, t),
            ),
        decreases resolved.len() - k,
    {
        let line = &resolved[k];
        let ghost before = row_views(rows@);
        proof {
            assert(models.take(k + 1).drop_last() =~= models.take(k as int));
            assert(models.take(k + 1).last() == line@);
        }
        match machine_data.get(line.model_number.as_str()) {
            Some(record) => {
                let ghost wanted = row_for(record@, line.quantity as nat, t);
                proof {
                    assert(before.push(wanted).drop_last() =~= before);
                    assert(report_rows(models.take(k + 1), machine_data@, t) == before.push(
                        wanted,
                    ));
                }
                let row = match make_row(record, line.quantity, design_temp) {
                    Some(row) => row,
                    None => {
                        proof {
                            assert(before.push(wanted).last() == wanted);
                            assert(!representable(before.push(wanted)));
                            if representable(report_rows(models, machine_data@, t)) {
                                lemma_representable_prefix(models, machine_data@, t, k + 1);
                            }
                        }
                        return None;
                    },
                };
                let next = match add_row(&totals, &row) {
                    Some(next) => next,
                    None => {
                        proof {
                            assert(before.push(wanted).last() == wanted);
                            assert(!sums_fit(before.push(wanted)));
                            assert(!representable(before.push(wanted)));
                            if representable(report_rows(models, machine_data@, t)) {
                                lemma_representable_prefix(models, machine_data@, t, k + 1);
                            }
                        }
                        return None;
                    },
                };
                proof {
                    assert(row_views(rows@.push(row)) =~= before.push(row@));
                }
                totals = next;
                rows.push(row);
            },
            None => {},
        }
        k = k + 1;
    }
    proof {
        assert(models.take(k as int) =~= models);
        lemma_row_per_model(user_input@, machine_data@, t);
        lemma_column_sums_over_models(models, machine_data@, Column::Btu95Min, t);
        lemma_column_sums_over_models(models, machine_data@, Column::Btu5Max, t);
        lemma_column_sums_over_models(models, machine_data@, Column::Btu17Max, t);
        lemma_column_sums_over_models(models, machine_data@, Column::Btu17Rated, t);
        lemma_column_sums_over_models(models, machine_data@, Column::BtuDesignMax, t);
    }
    Some(Report { rows, not_found: aggregation.not_found, totals })
}

/// Where every model number finds a record, there is one row per line, in
/// the same order, made from the record found.
proof fn lemma_rows_complete(resolved: Seq<(Seq<char>, nat)>, records: Seq<RecordView>, t: int)
    requires
        forall|i: int| 0 <= i < resolved.len() ==> lookup(records, (#[trigger] resolved[i]).0) is Some,
    ensures
        report_rows(resolved, records, t).len() == resolved.len(),
        forall|i: int|
            0 <= i < resolved.len() ==> #[trigger] report_rows(resolved, records, t)[i] == row_for(
                lookup(records, resolved[i].0)->0,
                resolved[i].1,
                t,
            ),
    decreases resolved.len(),
{
    if resolved.len() > 0 {
        let head = resolved.drop_last();
        assert forall|i: int| 0 <= i < head.len() implies lookup(
            records,
            (#[trigger] head[i]).0,
        ) is Some by {
            assert(head[i] == resolved[i]);
        }
        lemma_rows_complete(head, records, t);
        assert(lookup(records, resolved[resolved.len() - 1].0) is Some);
        assert forall|i: int| 0 <= i < resolved.len() implies #[trigger] report_rows(
            resolved,
            records,
            t,
        )[i] == row_for(lookup(records, resolved[i].0)->0, resolved[i].1, t) by {
            if i < head.len() {
                assert(head[i] == resolved[i]);
                assert(report_rows(resolved, records, t)[i] == report_rows(head, records, t)[i]);
            }
        }
    }
}

/// Every canonical model of a request gets its row: the report has one row
/// per model of the canonical demand, in the same order, made from the record
/// that the model number finds and the quantity asked for that model.
pub proof fn lemma_row_per_model(lines: Seq<(Seq<char>, nat)>, records: Seq<RecordView>, t: int)
    ensures
        report_rows(canonical_demand(lines, records), records, t).len() == canonical_demand(
            lines,
            records,
        ).len(),
        forall|i: int|
            0 <= i < canonical_demand(lines, records).len() ==> {
                let line = canonical_demand(lines, records)[i];
                &&& lookup(records, line.0) is Some
                &&& #[trigger] report_rows(canonical_demand(lines, records), records, t)[i]
                    == row_for(lookup(records, line.0)->0, line.1, t)
            },
{
    let demand = canonical_demand(lines, records);
    lemma_canonical_demand(lines, records);
    assert forall|i: int| 0 <= i < demand.len() implies lookup(
        records,
        (#[trigger] demand[i]).0,
    ) is Some by {
        let model = demand[i].0;
        assert(has_line(demand, model));
        assert(resolves_to(lines, records, model));
        let j = choose|j: int|
            0 <= j < lines.len() && canonical_model(records, (#[trigger] lines[j]).0) == Some(
                model,
            );
        lemma_canonical_is_found(records, lines[j].0);
    }
    lemma_rows_complete(demand, records, t);
}

/// The sizes to recommend for a total capacity at design temperature, in
/// whole units.
#[derive(Debug, Clone, Copy, PartialEq, Eq, Structural)]
pub struct RecommendedRange {
    /// The total divided by 1.2.
    pub min: i128,
    /// The total divided by 1.1.
    pub mid: i128,
    /// The total itself.
    pub max: i128,
}

/// Derives the recommended range from the total capacity at design
/// temperature: the total divided by 1.2, the total divided by 1.1, and the
/// total, each as the whole number of units nearest to the exact quotient.
pub fn recommend_range(totals: &CalculationTotals) -> (range: RecommendedRange)
    ensures
        range.min == rounded_quotient(totals.total_btu_design_max as int, 1200),
        range.mid == rounded_quotient(totals.total_btu_design_max as int, 1100),
        range.max == rounded_quotient(totals.total_btu_design_max as int, 1000),
{
    RecommendedRange {
        min: round_quotient(totals.total_btu_design_max, 1200),
        mid: round_quotient(totals.total_btu_design_max, 1100),
        max: round_quotient(totals.total_btu_design_max, 1000),
    }
}

/// What a line of the summary is about.
#[derive(Debug, Clone, Copy, PartialEq, Eq, Structural)]
pub enum SummaryLabel {
    Btu95Min,
    Btu5Max,
    Btu17Max,
    Btu17Rated,
    BtuDesignMax,
    DesignTemp,
}

/// One line of the summary: a label and a value in whole units.
#[derive(Debug, Clone, Copy, PartialEq, Eq, Structural)]
pub struct SummaryLine {
    pub label: SummaryLabel,
    pub value: i128,
}

/// The summary of a calculation: the five totals and the design
/// temperature, in this order, each rounded to whole units.
pub open spec fn summary_of(totals: CalculationTotals, design_temp: int) -> Seq<SummaryLine> {
    seq![
        SummaryLine {
            label: SummaryLabel::Btu95Min,
            value: rounded_units(totals.total_btu_95_min as int) as i128,
        },
        SummaryLine {
            label: SummaryLabel::Btu5Max,
            value: rounded_units(totals.total_btu_5_max as int) as i128,
        },
        SummaryLine {
            label: SummaryLabel::Btu17Max,
            value: rounded_units(totals.total_btu_17_max as int) as i128,
        },
        SummaryLine {
            label: SummaryLabel::Btu17Rated,
            value: rounded_units(totals.total_btu_17_rated as int) as i128,
        },
        SummaryLine {
            label: SummaryLabel::BtuDesignMax,
            value: rounded_units(totals.total_btu_design_max as int) as i128,
        },
        SummaryLine { label: SummaryLabel::DesignTemp, value: rounded_units(design_temp) as i128 },
    ]
}

/// Lists the lines of the summary.
pub fn summary_lines(totals: &CalculationTotals, design_temp: i64) -> (lines: Vec<SummaryLine>)
    ensures
        lines@ == summary_of(*totals, design_temp as int),
{
    let mut lines: Vec<SummaryLine> = Vec::new();
    lines.push(
        SummaryLine {
            label: SummaryLabel::Btu95Min,
            value: round_to_units(totals.total_btu_95_min),
        },
    );
    lines.push(
        SummaryLine { label: SummaryLabel::Btu5Max, value: round_to_units(totals.total_btu_5_max) },
    );
    lines.push(
        SummaryLine {
            label: SummaryLabel::Btu17Max,
            value: round_to_units(totals.total_btu_17_max),
        },
    );
    lines.push(
        SummaryLine {
            label: SummaryLabel::Btu17Rated,
            value: round_to_units(totals.total_btu_17_rated),
        },
    );
    lines.push(
        SummaryLine {
            label: SummaryLabel::BtuDesignMax,
            value: round_to_units(totals.total_btu_design_max),
        },
    );
    lines.push(
        SummaryLine { label: SummaryLabel::DesignTemp, value: round_to_units(design_temp as i128) },
    );
    proof {
        assert(lines@ =~= summary_of(*totals, design_temp as int));
    }
    lines
}

} // verus!

//! Piecewise-linear capacity interpolation over the sparse rating points of
//! one equipment record.

use vstd::prelude::*;
use crate::catalog::MachineData;
use crate::catalog::RecordView;
use crate::fixed::fits;
use crate::fixed::fraction_times;
use crate::fixed::lemma_quotient_splits;
use crate::fixed::Wide;

verus! {

/// Temperature of the 5 degree rating point, in thousandths.
pub const TEMP_5: i64 = 5_000;

/// Temperature of the 17 degree rating point, in thousandths.
pub const TEMP_17: i64 = 17_000;

/// Temperature of the 47 degree rating point, in thousandths.
pub const TEMP_47: i64 = 47_000;

/// No capacity computed within 32 bits exceeds this magnitude: neither does
/// the capacity of a record whose usable points lie within 32 bits, at a
/// temperature within 32 bits.
pub const CAPACITY_LIMIT: i128 = 0x2_0000_0000_0000_0000;

/// An interpolation node: a capacity published for one outdoor temperature.
#[derive(Debug, Clone, Copy, PartialEq, Eq, Structural)]
pub struct CapacityPoint {
    pub temp: i64,
    pub capacity: i64,
}

/// The node made of `temp` and `capacity` if both are present, else nothing.
pub open spec fn optional_point(temp: Option<i64>, capacity: Option<i64>) -> Seq<CapacityPoint> {
    if temp is Some && capacity is Some {
        seq![CapacityPoint { temp: temp->0, capacity: capacity->0 }]
    } else {
        Seq::empty()
    }
}

/// The nodes a record offers, in candidate order: the lowest-temperature
/// point, then the points at 5, 17 and 47 degrees.  A point with a missing
/// coordinate is left out.  The rated capacity at 17 degrees is no node.
pub open spec fn usable_points(r: RecordView) -> Seq<CapacityPoint> {
    optional_point(r.lowest_temp, r.btu_lowest_max) + optional_point(Some(TEMP_5), r.btu_5_max)
        + optional_point(Some(TEMP_17), r.btu_17_max) + optional_point(
        Some(TEMP_47),
        r.btu_47_max,
    )
}

/// `s` with `p` put behind the last point that is not warmer than `p`.
pub open spec fn insert_by_temp(s: Seq<CapacityPoint>, p: CapacityPoint) -> Seq<CapacityPoint>
    decreases s.len(),
{
    if s.len() == 0 {
        seq![p]
    } else if s.last().temp <= p.temp {
        s.push(p)
    } else {
        insert_by_temp(s.drop_last(), p).push(s.last())
    }
}

/// The points of `s` in ascending order of temperature; points of equal
/// temperature keep the order they had in `s`.
pub open spec fn sort_by_temp(s: Seq<CapacityPoint>) -> Seq<CapacityPoint>
    decreases s.len(),
{
    if s.len() == 0 {
        s
    } else {
        insert_by_temp(sort_by_temp(s.drop_last()), s.last())
    }
}

/// Whether temperatures never fall along `s`.
pub open spec fn ascending(s: Seq<CapacityPoint>) -> bool {
    forall|i: int, j: int| 0 <= i <= j < s.len() ==> s[i].temp <= s[j].temp
}

/// Start of the first pair of neighbours at or after `from` whose
/// temperatures enclose `t`; 0 if there is none.
pub open spec fn first_window(s: Seq<CapacityPoint>, t: int, from: int) -> int
    decreases s.len() - from,
{
    if from < 0 || from + 1 >= s.len() {
        0
    } else if s[from].temp <= t <= s[from + 1].temp {
        from
    } else {
        first_window(s, t, from + 1)
    }
}

/// Index of the first point of the pair used for `t`: the two coldest points
/// at or below the range, the two warmest at or above it, and otherwise the
/// first enclosing pair of neighbours.
pub open spec fn bracket_start(s: Seq<CapacityPoint>, t: int) -> int
    recommends
        s.len() >= 2,
{
    if t <= s[0].temp {
        0
    } else if t >= s.last().temp {
        s.len() - 2
    } else {
        first_window(s, t, 0)
    }
}

/// Value at `t` of the straight line through `low` and `high`, rounded
/// towards negative infinity; the capacity of `low` where both share one
/// temperature.
pub open spec fn interpolate(low: CapacityPoint, high: CapacityPoint, t: int) -> int {
    if low.temp == high.temp {
        low.capacity as int
    } else {
        low.capacity + ((t - low.temp) * (high.capacity - low.capacity)) / (high.temp - low.temp)
    }
}

/// Capacity of a record at temperature `t`: 0 without any usable point, the
/// capacity of a lone point, else the line through the bracketing pair.
pub open spec fn capacity_at(r: RecordView, t: int) -> int {
    let points = usable_points(r);
    if points.len() == 0 {
        0
    } else if points.len() == 1 {
        points[0].capacity as int
    } else {
        let s = sort_by_temp(points);
        let i = bracket_start(s, t);
        interpolate(s[i], s[i + 1], t)
    }
}

/// The numerator of the line through `low` and `high` at `t`, over the
/// difference of their temperatures: the exact value is their quotient.
pub open spec fn line_numerator(low: CapacityPoint, high: CapacityPoint, t: int) -> int {
    low.capacity * (high.temp - low.temp) + (t - low.temp) * (high.capacity - low.capacity)
}

/// The exact value at `t` of the line through `low` and `high`, times
/// `quantity`, rounded towards negative infinity after the multiplication.
pub open spec fn interpolate_times(
    low: CapacityPoint,
    high: CapacityPoint,
    t: int,
    quantity: int,
) -> int {
    if low.temp == high.temp {
        low.capacity * quantity
    } else {
        (line_numerator(low, high, t) * quantity) / (high.temp - low.temp)
    }
}

/// The exact capacity of a record at temperature `t`, times `quantity`,
/// rounded towards negative infinity after the multiplication.
pub open spec fn capacity_times(r: RecordView, t: int, quantity: int) -> int {
    let points = usable_points(r);
    if points.len() == 0 {
        0
    } else if points.len() == 1 {
        points[0].capacity * quantity
    } else {
        let s = sort_by_temp(points);
        let i = bracket_start(s, t);
        interpolate_times(s[i], s[i + 1], t, quantity)
    }
}

/// Rounding after the multiplication loses less than one unit of the
/// quantity: the product lies between the rounded capacity times the
/// quantity and that plus the quantity; for one unit it is the rounded
/// capacity.
pub proof fn lemma_interpolate_times_close(
    low: CapacityPoint,
    high: CapacityPoint,
    t: int,
    quantity: int,
)
    requires
        low.temp <= high.temp,
        quantity >= 0,
    ensures
        interpolate(low, high, t) * quantity <= interpolate_times(low, high, t, quantity),
        interpolate_times(low, high, t, quantity) <= interpolate(low, high, t) * quantity
            + quantity,
        interpolate_times(low, high, t, 1) == interpolate(low, high, t),
{
    if low.temp < high.temp {
        let dx = high.temp - low.temp;
        let rise = (t - low.temp) * (high.capacity - low.capacity);
        let n = line_numerator(low, high, t);
        assert(low.capacity * dx + rise == n);
        lemma_quotient_splits(low.capacity as int, rise, dx);
        let c = n / dx;
        let m = n % dx;
        vstd::arithmetic::div_mod::lemma_fundamental_div_mod(n, dx);
        assert(c == interpolate(low, high, t));
        assert(n * quantity == (c * quantity) * dx + m * quantity) by (nonlinear_arith)
            requires
                n == dx * c + m,
        ;
        lemma_quotient_splits(c * quantity, m * quantity, dx);
        assert(0 <= (m * quantity) / dx <= quantity) by (nonlinear_arith)
            requires
                0 <= m < dx,
                quantity >= 0,
        ;
        assert(n * 1 == n && c * 1 == c) by (nonlinear_arith);
    } else {
        assert(low.capacity * 1 == low.capacity) by (nonlinear_arith);
    }
}

/// The same for a record: the exact capacity times a quantity, rounded after
/// the multiplication, lies between the rounded capacity times the quantity
/// and that plus the quantity, and for one unit it is the rounded capacity.
pub proof fn lemma_capacity_times_close(r: RecordView, t: int, quantity: int)
    requires
        quantity >= 0,
    ensures
        capacity_at(r, t) * quantity <= capacity_times(r, t, quantity),
        capacity_times(r, t, quantity) <= capacity_at(r, t) * quantity + quantity,
        capacity_times(r, t, 1) == capacity_at(r, t),
{
    let points = usable_points(r);
    if points.len() >= 2 {
        let s = sort_by_temp(points);
        lemma_sort_ascending(points);
        lemma_first_window_range(s, t, 0);
        let i = bracket_start(s, t);
        assert(s[i].temp <= s[i + 1].temp);
        lemma_interpolate_times_close(s[i], s[i + 1], t, quantity);
    } else if points.len() == 1 {
        assert(points[0].capacity * 1 == points[0].capacity) by (nonlinear_arith);
    } else {
        assert(0 * quantity == 0) by (nonlinear_arith);
    }
}

/// Where `insert_by_temp` puts the new point: behind the last point that is
/// not warmer.
proof fn lemma_insert_position(s: Seq<CapacityPoint>, p: CapacityPoint, k: int)
    requires
        0 <= k <= s.len(),
        k > 0 ==> s[k - 1].temp <= p.temp,
        forall|j: int| k <= j < s.len() ==> s[j].temp > p.temp,
    ensures
        insert_by_temp(s, p) == s.insert(k, p),
    decreases s.len(),
{
    if s.len() == 0 {
        assert(s.insert(k, p) =~= seq![p]);
    } else if k == s.len() {
        assert(s.insert(k, p) =~= s.push(p));
    } else {
        lemma_insert_position(s.drop_last(), p, k);
        assert(s.insert(k, p) =~= s.drop_last().insert(k, p).push(s.last()));
    }
}

/// Inserting keeps the length growing by one and an ascending sequence
/// ascending.
pub proof fn lemma_insert_ascending(s: Seq<CapacityPoint>, p: CapacityPoint)
    requires
        ascending(s),
    ensures
        ascending(insert_by_temp(s, p)),
        insert_by_temp(s, p).len() == s.len() + 1,
    decreases s.len(),
{
    if s.len() == 0 {
    } else if s.last().temp <= p.temp {
    } else {
        let head = s.drop_last();
        lemma_insert_ascending(head, p);
        let inner = insert_by_temp(head, p);
        lemma_insert_members(head, p);
        assert forall|i: int, j: int| 0 <= i <= j < inner.push(s.last()).len() implies inner.push(
            s.last(),
        )[i].temp <= inner.push(s.last())[j].temp by {
            if j == inner.len() {
                if i < inner.len() {
                    assert(inner[i] == p || head.contains(inner[i]));
                    if head.contains(inner[i]) {
                        let w = choose|w: int| 0 <= w < head.len() && head[w] == inner[i];
                        assert(s[w].temp <= s[s.len() - 1].temp);
                    }
                }
            }
        }
    }
}

/// Every point of `insert_by_temp(s, p)` is `p` or a point of `s`.
proof fn lemma_insert_members(s: Seq<CapacityPoint>, p: CapacityPoint)
    ensures
        forall|i: int|
            0 <= i < insert_by_temp(s, p).len() ==> #[trigger] insert_by_temp(s, p)[i] == p
                || s.contains(insert_by_temp(s, p)[i]),
    decreases s.len(),
{
    let out = insert_by_temp(s, p);
    if s.len() == 0 {
    } else if s.last().temp <= p.temp {
        assert forall|i: int| 0 <= i < out.len() implies #[trigger] out[i] == p || s.contains(
            out[i],
        ) by {
            if i < s.len() {
                assert(s[i] == out[i]);
            }
        }
    } else {
        let head = s.drop_last();
        lemma_insert_members(head, p);
        let inner = insert_by_temp(head, p);
        assert forall|i: int| 0 <= i < out.len() implies #[trigger] out[i] == p || s.contains(
            out[i],
        ) by {
            if i < inner.len() {
                assert(out[i] == inner[i]);
                if inner[i] != p {
                    let w = choose|w: int| 0 <= w < head.len() && head[w] == inner[i];
                    assert(s[w] == out[i]);
                }
            } else {
                assert(s[s.len() - 1] == out[i]);
            }
        }
    }
}

/// Sorting yields an ascending sequence of the same length.
pub proof fn lemma_sort_ascending(s: Seq<CapacityPoint>)
    ensures
        ascending(sort_by_temp(s)),
        sort_by_temp(s).len() == s.len(),
    decreases s.len(),
{
    if s.len() > 0 {
        lemma_sort_ascending(s.drop_last());
        lemma_insert_ascending(sort_by_temp(s.drop_last()), s.last());
    }
}

/// Inserting a point adds it to the points of the sequence and changes
/// nothing else.
proof fn lemma_insert_permutes(s: Seq<CapacityPoint>, p: CapacityPoint)
    ensures
        insert_by_temp(s, p).to_multiset() == s.to_multiset().insert(p),
    decreases s.len(),
{
    if s.len() == 0 {
        assert(seq![p] =~= s.push(p));
        vstd::seq_lib::to_multiset_build(s, p);
    } else if s.last().temp <= p.temp {
        vstd::seq_lib::to_multiset_build(s, p);
    } else {
        let head = s.drop_last();
        lemma_insert_permutes(head, p);
        vstd::seq_lib::to_multiset_build(insert_by_temp(head, p), s.last());
        vstd::seq_lib::to_multiset_build(head, s.last());
        assert(head.push(s.last()) =~= s);
        assert(head.to_multiset().insert(p).insert(s.last()) =~= head.to_multiset().insert(
            s.last(),
        ).insert(p));
    }
}

/// Sorting rearranges: the sorted sequence holds the same points, each as
/// often as before.
pub proof fn lemma_sort_permutes(s: Seq<CapacityPoint>)
    ensures
        sort_by_temp(s).to_multiset() == s.to_multiset(),
    decreases s.len(),
{
    if s.len() > 0 {
        let head = s.drop_last();
        lemma_sort_permutes(head);
        lemma_insert_permutes(sort_by_temp(head), s.last());
        vstd::seq_lib::to_multiset_build(head, s.last());
        assert(head.push(s.last()) =~= s);
    }
}

/// The first point of `s` whose temperature is `t`, if there is one.
pub open spec fn first_at(s: Seq<CapacityPoint>, t: int) -> Option<CapacityPoint>
    decreases s.len(),
{
    if s.len() == 0 {
        None
    } else if first_at(s.drop_last(), t) is Some {
        first_at(s.drop_last(), t)
    } else if s.last().temp == t {
        Some(s.last())
    } else {
        None
    }
}

/// How many points of `s` have temperature `t`.
pub open spec fn count_at(s: Seq<CapacityPoint>, t: int) -> nat
    decreases s.len(),
{
    if s.len() == 0 {
        0
    } else {
        count_at(s.drop_last(), t) + if s.last().temp == t {
            1nat
        } else {
            0nat
        }
    }
}

/// Inserting by temperature changes neither which point comes first at a
/// temperature nor how many points share it, compared with appending.
proof fn lemma_insert_like_push(s: Seq<CapacityPoint>, p: CapacityPoint, t: int)
    ensures
        first_at(insert_by_temp(s, p), t) == first_at(s.push(p), t),
        count_at(insert_by_temp(s, p), t) == count_at(s.push(p), t),
    decreases s.len(),
{
    assert(s.push(p).drop_last() =~= s);
    if s.len() == 0 {
        assert(insert_by_temp(s, p) =~= s.push(p));
    } else if s.last().temp <= p.temp {
    } else {
        let head = s.drop_last();
        let inner = insert_by_temp(head, p);
        lemma_insert_like_push(head, p, t);
        assert(inner.push(s.last()).drop_last() =~= inner);
        assert(head.push(p).drop_last() =~= head);
        assert(insert_by_temp(s, p) == inner.push(s.last()));
        assert(first_at(head.push(p), t) == if first_at(head, t) is Some {
            first_at(head, t)
        } else if p.temp == t {
            Some(p)
        } else {
            None
        });
        assert(first_at(s, t) == if first_at(head, t) is Some {
            first_at(head, t)
        } else if s.last().temp == t {
            Some(s.last())
        } else {
            None
        });
        assert(count_at(head.push(p), t) == count_at(head, t) + if p.temp == t {
            1nat
        } else {
            0nat
        });
        assert(count_at(s, t) == count_at(head, t) + if s.last().temp == t {
            1nat
        } else {
            0nat
        });
    }
}

/// Sorting keeps the first point at each temperature and the number of
/// points that share it.
pub proof fn lemma_sort_is_stable(s: Seq<CapacityPoint>, t: int)
    ensures
        first_at(sort_by_temp(s), t) == first_at(s, t),
        count_at(sort_by_temp(s), t) == count_at(s, t),
    decreases s.len(),
{
    if s.len() > 0 {
        let head = s.drop_last();
        lemma_sort_is_stable(head, t);
        lemma_insert_like_push(sort_by_temp(head), s.last(), t);
        assert(sort_by_temp(head).push(s.last()).drop_last() =~= sort_by_temp(head));
    }
}

/// Index of the point that `first_at` returns.
proof fn lemma_first_at_index(s: Seq<CapacityPoint>, t: int) -> (k: int)
    requires
        first_at(s, t) is Some,
    ensures
        0 <= k < s.len(),
        first_at(s, t) == Some(s[k]),
        s[k].temp == t,
        forall|j: int| 0 <= j < k ==> s[j].temp != t,
    decreases s.len(),
{
    let head = s.drop_last();
    if first_at(head, t) is Some {
        let k = lemma_first_at_index(head, t);
        assert forall|j: int| 0 <= j <= k implies head[j] == s[j] by {}
        k
    } else {
        lemma_first_at_none(head, t);
        assert forall|j: int| 0 <= j < s.len() - 1 implies s[j].temp != t by {
            assert(head[j] == s[j]);
        }
        s.len() - 1
    }
}

/// Without a first point at `t` no point has temperature `t`.
proof fn lemma_first_at_none(s: Seq<CapacityPoint>, t: int)
    requires
        first_at(s, t) is None,
    ensures
        forall|j: int| 0 <= j < s.len() ==> s[j].temp != t,
    decreases s.len(),
{
    if s.len() > 0 {
        let head = s.drop_last();
        lemma_first_at_none(head, t);
        assert forall|j: int| 0 <= j < s.len() implies s[j].temp != t by {
            if j < s.len() - 1 {
                assert(head[j] == s[j]);
            }
        }
    }
}

/// Three points of one temperature at the end of `s` count as three.
proof fn lemma_count_three(s: Seq<CapacityPoint>, t: int)
    requires
        s.len() >= 3,
        s[s.len() - 1].temp == t,
        s[s.len() - 2].temp == t,
        s[s.len() - 3].temp == t,
    ensures
        count_at(s, t) >= 3,
{
    let a = s.drop_last();
    let b = a.drop_last();
    assert(count_at(s, t) == count_at(a, t) + 1);
    assert(count_at(a, t) == count_at(b, t) + 1);
    assert(count_at(b, t) == count_at(b.drop_last(), t) + 1);
}

/// Appending an optional point adds at most one to the count, and nothing
/// unless the point has temperature `t`.
proof fn lemma_count_optional(
    s: Seq<CapacityPoint>,
    temp: Option<i64>,
    capacity: Option<i64>,
    t: int,
)
    ensures
        count_at(s + optional_point(temp, capacity), t) <= count_at(s, t) + 1,
        temp is Some && temp->0 != t ==> count_at(s + optional_point(temp, capacity), t)
            == count_at(s, t),
{
    let extra = optional_point(temp, capacity);
    if extra.len() == 0 {
        assert(s + extra =~= s);
    } else {
        assert(s + extra =~= s.push(extra[0]));
        assert(s.push(extra[0]).drop_last() =~= s);
    }
}

/// No temperature is shared by more than two usable points of a record.
pub proof fn lemma_at_most_two_share(r: RecordView, t: int)
    ensures
        count_at(usable_points(r), t) <= 2,
{
    let s0 = Seq::<CapacityPoint>::empty();
    let s1 = s0 + optional_point(r.lowest_temp, r.btu_lowest_max);
    let s2 = s1 + optional_point(Some(TEMP_5), r.btu_5_max);
    let s3 = s2 + optional_point(Some(TEMP_17), r.btu_17_max);
    let s4 = s3 + optional_point(Some(TEMP_47), r.btu_47_max);
    lemma_count_optional(s0, r.lowest_temp, r.btu_lowest_max, t);
    lemma_count_optional(s1, Some(TEMP_5), r.btu_5_max, t);
    lemma_count_optional(s2, Some(TEMP_17), r.btu_17_max, t);
    lemma_count_optional(s3, Some(TEMP_47), r.btu_47_max, t);
    assert(s1 =~= optional_point(r.lowest_temp, r.btu_lowest_max));
    assert(s4 == usable_points(r));
}

/// In an ascending sequence, the first enclosing window of a temperature
/// strictly inside the range ends at the first point that is not colder.
proof fn lemma_first_window_ends_at(s: Seq<CapacityPoint>, t: int, from: int, k: int)
    requires
        ascending(s),
        0 <= from < k < s.len(),
        s[from].temp < t,
        s[k].temp >= t,
        forall|j: int| 0 <= j < k ==> s[j].temp < t,
    ensures
        first_window(s, t, from) == k - 1,
    decreases k - from,
{
    if from + 1 < k {
        lemma_first_window_ends_at(s, t, from + 1, k);
    }
}

/// The line through two points of different temperature passes through both.
proof fn lemma_line_through_ends(low: CapacityPoint, high: CapacityPoint)
    requires
        low.temp < high.temp,
    ensures
        interpolate(low, high, low.temp as int) == low.capacity,
        interpolate(low, high, high.temp as int) == high.capacity,
{
    let dx = high.temp - low.temp;
    let dy = high.capacity - low.capacity;
    assert((low.temp - low.temp) * dy == 0) by (nonlinear_arith);
    assert(0int / dx == 0) by (nonlinear_arith)
        requires
            dx > 0,
    ;
    assert((dx * dy) / dx == dy) by (nonlinear_arith)
        requires
            dx > 0,
    ;
}

/// The first enclosing window from `from` on exists and is the first, where
/// the temperature lies between the point at `from` and a later point.
proof fn lemma_first_window_encloses(s: Seq<CapacityPoint>, t: int, from: int)
    requires
        0 <= from,
        from + 1 < s.len(),
        s[from].temp <= t <= s.last().temp,
    ensures
        from <= first_window(s, t, from) < s.len() - 1,
        s[first_window(s, t, from)].temp <= t <= s[first_window(s, t, from) + 1].temp,
        forall|j: int|
            from <= j < first_window(s, t, from) ==> !(s[j].temp <= t <= #[trigger] s[j + 1].temp),
    decreases s.len() - from,
{
    if !(s[from].temp <= t <= s[from + 1].temp) {
        lemma_first_window_encloses(s, t, from + 1);
        let w = first_window(s, t, from + 1);
        assert forall|j: int| from <= j < w implies !(s[j].temp <= t <= #[trigger] s[j + 1].temp) by {
        }
    }
}

/// Strictly inside the range of a sequence the bracket is the first pair of
/// neighbours whose temperatures enclose the target.
pub proof fn lemma_bracket_encloses(s: Seq<CapacityPoint>, t: int)
    requires
        s.len() >= 2,
        s[0].temp < t < s.last().temp,
    ensures
        0 <= bracket_start(s, t) < s.len() - 1,
        s[bracket_start(s, t)].temp <= t <= s[bracket_start(s, t) + 1].temp,
        forall|j: int|
            0 <= j < bracket_start(s, t) ==> !(s[j].temp <= t <= #[trigger] s[j + 1].temp),
{
    lemma_first_window_encloses(s, t, 0);
}

/// Between two points of different temperature the line stays between
/// their capacities.
pub proof fn lemma_line_stays_between(low: CapacityPoint, high: CapacityPoint, t: int)
    requires
        low.temp < high.temp,
        low.temp <= t <= high.temp,
    ensures
        low.capacity <= high.capacity ==> low.capacity <= interpolate(low, high, t) <= high.capacity,
        low.capacity >= high.capacity ==> high.capacity <= interpolate(low, high, t) <= low.capacity,
{
    let dx = high.temp - low.temp;
    let dy = high.capacity - low.capacity;
    let dt = t - low.temp;
    let q = (dt * dy) / dx;
    vstd::arithmetic::div_mod::lemma_fundamental_div_mod(dt * dy, dx);
    let r = (dt * dy) % dx;
    if dy >= 0 {
        assert(0 <= q <= dy) by (nonlinear_arith)
            requires
                dt * dy == dx * q + r,
                0 <= r < dx,
                0 <= dt <= dx,
                dy >= 0,
        ;
    }
    if dy <= 0 {
        assert(dy <= q <= 0) by (nonlinear_arith)
            requires
                dt * dy == dx * q + r,
                0 <= r < dx,
                0 <= dt <= dx,
                dy <= 0,
        ;
    }
}

/// The start of a window always leaves room for its second point.
proof fn lemma_first_window_range(s: Seq<CapacityPoint>, t: int, from: int)
    requires
        s.len() >= 2,
    ensures
        0 <= first_window(s, t, from) <= s.len() - 2,
    decreases s.len() - from,
{
    if !(from < 0 || from + 1 >= s.len()) && !(s[from].temp <= t <= s[from + 1].temp) {
        lemma_first_window_range(s, t, from + 1);
    }
}

/// Whether a point lies within the range of 32 bits in both coordinates.
pub open spec fn modest_point(p: CapacityPoint) -> bool {
    i32::MIN <= p.temp <= i32::MAX && i32::MIN <= p.capacity <= i32::MAX
}

/// Whether every usable point of a record lies within the range of 32 bits.
pub open spec fn modest_points(r: RecordView) -> bool {
    forall|i: int| 0 <= i < usable_points(r).len() ==> modest_point(#[trigger] usable_points(r)[i])
}

/// The line through two points within 32 bits, the second not colder than
/// the first, stays within the capacity limit at every temperature within
/// 32 bits.
pub proof fn lemma_interpolate_within(low: CapacityPoint, high: CapacityPoint, t: int)
    requires
        low.temp <= high.temp,
        modest_point(low),
        modest_point(high),
        i32::MIN <= t <= i32::MAX,
    ensures
        -CAPACITY_LIMIT < interpolate(low, high, t) < CAPACITY_LIMIT,
{
    if low.temp < high.temp {
        let dt = t - low.temp;
        let dy = high.capacity - low.capacity;
        let dx = high.temp - low.temp;
        assert(-0x1_0000_0000_0000_0000 <= dt * dy <= 0x1_0000_0000_0000_0000) by (nonlinear_arith)
            requires
                -0x1_0000_0000 <= dt <= 0x1_0000_0000,
                -0x1_0000_0000 <= dy <= 0x1_0000_0000,
        ;
        assert(-0x1_0000_0000_0000_0000 <= (dt * dy) / dx <= 0x1_0000_0000_0000_0000)
            by (nonlinear_arith)
            requires
                dx >= 1,
                -0x1_0000_0000_0000_0000 <= dt * dy <= 0x1_0000_0000_0000_0000,
        ;
    }
}

/// Every point of a sorted sequence is a point of the sequence sorted.
proof fn lemma_sorted_points_modest(s: Seq<CapacityPoint>, i: int)
    requires
        0 <= i < sort_by_temp(s).len(),
        forall|j: int| 0 <= j < s.len() ==> modest_point(#[trigger] s[j]),
    ensures
        modest_point(sort_by_temp(s)[i]),
{
    lemma_sort_permutes(s);
    let p = sort_by_temp(s)[i];
    vstd::seq_lib::to_multiset_contains(sort_by_temp(s), p);
    vstd::seq_lib::to_multiset_contains(s, p);
    assert(sort_by_temp(s).contains(p));
    assert(s.contains(p));
    let j = choose|j: int| 0 <= j < s.len() && s[j] == p;
    assert(modest_point(s[j]));
}

/// The capacity of a record whose usable points lie within 32 bits stays
/// within the capacity limit at every temperature within 32 bits.
pub proof fn lemma_capacity_within(r: RecordView, t: int)
    requires
        modest_points(r),
        i32::MIN <= t <= i32::MAX,
    ensures
        -CAPACITY_LIMIT < capacity_at(r, t) < CAPACITY_LIMIT,
{
    let points = usable_points(r);
    if points.len() >= 2 {
        let s = sort_by_temp(points);
        lemma_sort_ascending(points);
        lemma_first_window_range(s, t, 0);
        let i = bracket_start(s, t);
        assert(s[i].temp <= s[i + 1].temp);
        lemma_sorted_points_modest(points, i);
        lemma_sorted_points_modest(points, i + 1);
        lemma_interpolate_within(s[i], s[i + 1], t);
    } else if points.len() == 1 {
        assert(modest_point(points[0]));
    }
}

/// Exactness at the nodes: at the temperature of a usable point, the capacity
/// of a record is the capacity of the first usable point, in candidate order,
/// that has this temperature.
pub proof fn lemma_exact_at_node(r: RecordView, t: int)
    requires
        first_at(usable_points(r), t) is Some,
    ensures
        capacity_at(r, t) == first_at(usable_points(r), t)->0.capacity,
{
    let points = usable_points(r);
    let s = sort_by_temp(points);
    lemma_sort_ascending(points);
    lemma_sort_is_stable(points, t);
    let k = lemma_first_at_index(s, t);
    let n = s.len() as int;
    if points.len() == 1 {
        lemma_first_at_index(points, t);
    } else if t <= s[0].temp {
        assert(s[0].temp <= s[k].temp);
        assert(k == 0);
        if s[0].temp < s[1].temp {
            lemma_line_through_ends(s[0], s[1]);
        }
    } else if t >= s.last().temp {
        assert(s[k].temp <= s[n - 1].temp);
        if s[n - 2].temp < s[n - 1].temp {
            assert(k == n - 1) by {
                if k < n - 1 {
                    assert(s[k].temp <= s[n - 2].temp);
                }
            }
            lemma_line_through_ends(s[n - 2], s[n - 1]);
        } else {
            assert(s[n - 2].temp <= s[n - 1].temp);
            assert(k <= n - 2);
            if k < n - 2 {
                assert(s[k].temp <= s[n - 3].temp <= s[n - 2].temp);
                lemma_count_three(s, t);
                lemma_at_most_two_share(r, t);
            }
        }
    } else {
        assert(k > 0);
        assert forall|j: int| 0 <= j < k implies s[j].temp < t by {
            assert(s[j].temp <= s[k].temp);
        }
        lemma_first_window_ends_at(s, t, 0, k);
        lemma_line_through_ends(s[k - 1], s[k]);
    }
}

/// Puts `p` into `points` behind the last point that is not warmer.
fn insert_point(points: &mut Vec<CapacityPoint>, p: CapacityPoint)
    ensures
        final(points)@ == insert_by_temp(old(points)@, p),
{
    let mut k: usize = points.len();
    while k > 0 && points[k - 1].temp > p.temp
        invariant
            k <= points.len(),
            points@ == old(points)@,
            forall|j: int| k <= j < points.len() ==> points[j].temp > p.temp,
        decreases k,
    {
        k = k - 1;
    }
    proof {
        lemma_insert_position(points@, p, k as int);
    }
    points.insert(k, p);
}

/// Sorts points by temperature, ascending; equal temperatures keep their
/// order.
pub fn sort_points(points: &Vec<CapacityPoint>) -> (sorted: Vec<CapacityPoint>)
    ensures
        sorted@ == sort_by_temp(points@),
        sorted.len() == points.len(),
        ascending(sorted@),
        sorted@.to_multiset() == points@.to_multiset(),
{
    proof {
        lemma_sort_ascending(points@);
        lemma_sort_permutes(points@);
    }
    let mut sorted: Vec<CapacityPoint> = Vec::new();
    let mut i: usize = 0;
    while i < points.len()
        invariant
            i <= points.len(),
            sorted@ == sort_by_temp(points@.take(i as int)),
        decreases points.len() - i,
    {
        proof {
            assert(points@.take(i + 1).drop_last() =~= points@.take(i as int));
        }
        insert_point(&mut sorted, points[i]);
        i = i + 1;
    }
    proof {
        assert(points@.take(i as int) =~= points@);
    }
    sorted
}

/// Finds the pair of neighbours of an ascending sequence that is used for
/// temperature `t`.
pub fn find_bracket(sorted: &Vec<CapacityPoint>, t: i64) -> (start: usize)
    requires
        sorted.len() >= 2,
    ensures
        start == bracket_start(sorted@, t as int),
        start + 1 < sorted.len(),
{
    let n: usize = sorted.len();
    if t <= sorted[0].temp {
        0
    } else if t >= sorted[n - 1].temp {
        n - 2
    } else {
        let mut i: usize = 0;
        while i + 1 < n
            invariant
                n == sorted.len(),
                n >= 2,
                i + 1 <= n,
                sorted[0].temp < t < sorted[n - 1].temp,
                first_window(sorted@, t as int, 0) == first_window(sorted@, t as int, i as int),
            decreases n - i,
        {
            if sorted[i].temp <= t && t <= sorted[i + 1].temp {
                return i;
            }
            i = i + 1;
        }
        0
    }
}

/// The magnitude of a difference of two 64-bit numbers.
fn magnitude(difference: i128) -> (m: u128)
    requires
        -0xFFFF_FFFF_FFFF_FFFF <= difference <= 0xFFFF_FFFF_FFFF_FFFF,
    ensures
        m == if difference < 0 {
            -difference
        } else {
            difference as int
        },
{
    if difference < 0 {
        (-difference) as u128
    } else {
        difference as u128
    }
}

/// Evaluates at `t` the line through two points of which `high` is not
/// colder than `low`.
pub fn interpolate_between(low: CapacityPoint, high: CapacityPoint, t: i64) -> (value: Wide)
    requires
        low.temp <= high.temp,
    ensures
        value@ == interpolate(low, high, t as int),
        value.normal(),
{
    if low.temp == high.temp {
        return Wide::from_i64(low.capacity);
    }
    let dt: i128 = t as i128 - low.temp as i128;
    let dy: i128 = high.capacity as i128 - low.capacity as i128;
    let dx: u128 = (high.temp as i128 - low.temp as i128) as u128;
    let across: u128 = magnitude(dt);
    let up: u128 = magnitude(dy);
    proof {
        assert(0 <= across * up <= 0xFFFF_FFFF_FFFF_FFFF * 0xFFFF_FFFF_FFFF_FFFF) by (nonlinear_arith)
            requires
                0 <= across <= 0xFFFF_FFFF_FFFF_FFFF,
                0 <= up <= 0xFFFF_FFFF_FFFF_FFFF,
        ;
    }
    let product: u128 = across * up;
    let falling: bool = (dt < 0) != (dy < 0);
    proof {
        let a = dt as int;
        let b = dy as int;
        assert((-a) * (-b) == a * b && (-a) * b == -(a * b) && a * (-b) == -(a * b))
            by (nonlinear_arith);
    }
    let rise = Wide::quotient(falling, product, dx);
    rise.plus(low.capacity)
}

/// Evaluates at `t` the line through two points of which `high` is not
/// colder than `low`, times `quantity`, rounding after the multiplication;
/// `None` if the product is beyond the range of `i128`.
pub fn interpolate_times_between(
    low: CapacityPoint,
    high: CapacityPoint,
    t: i64,
    quantity: u128,
) -> (product: Option<i128>)
    requires
        low.temp <= high.temp,
    ensures
        match product {
            Some(p) => p == interpolate_times(low, high, t as int, quantity as int),
            None => !fits(interpolate_times(low, high, t as int, quantity as int)),
        },
{
    if low.temp == high.temp {
        return Wide::from_i64(low.capacity).times(quantity);
    }
    let dt: i128 = t as i128 - low.temp as i128;
    let dy: i128 = high.capacity as i128 - low.capacity as i128;
    let dx: u128 = (high.temp as i128 - low.temp as i128) as u128;
    let across: u128 = magnitude(dt);
    let up: u128 = magnitude(dy);
    proof {
        assert(0 <= across * up <= 0xFFFF_FFFF_FFFF_FFFF * 0xFFFF_FFFF_FFFF_FFFF) by (nonlinear_arith)
            requires
                0 <= across <= 0xFFFF_FFFF_FFFF_FFFF,
                0 <= up <= 0xFFFF_FFFF_FFFF_FFFF,
        ;
    }
    let product: u128 = across * up;
    let falling: bool = (dt < 0) != (dy < 0);
    let steps: u128 = product / dx;
    let rest: u128 = product % dx;
    proof {
        let a = dt as int;
        let b = dy as int;
        assert((-a) * (-b) == a * b && (-a) * b == -(a * b) && a * (-b) == -(a * b))
            by (nonlinear_arith);
        vstd::arithmetic::div_mod::lemma_fundamental_div_mod(product as int, dx as int);
        assert(steps as int <= product) by (nonlinear_arith)
            requires
                product == dx * steps + rest,
                dx >= 1,
                rest >= 0,
                steps >= 0,
        ;
    }
    let whole = Wide { negative: falling && steps != 0, magnitude: steps }.plus(low.capacity);
    proof {
        let y = low.capacity as int;
        let d = dx as int;
        let k = steps as int;
        let r = rest as int;
        if falling {
            assert((y - k) * d - r == y * d - (d * k + r)) by (nonlinear_arith);
        } else {
            assert((y + k) * d + r == y * d + (d * k + r)) by (nonlinear_arith);
        }
        assert(fraction_times(whole@, falling, r, d, quantity as int) == interpolate_times(
            low,
            high,
            t as int,
            quantity as int,
        ));
    }
    Wide::times_fraction(&whole, falling, rest, dx, quantity)
}

impl MachineData {
    /// The interpolation nodes of this record, in candidate order.
    pub fn capacity_points(&self) -> (points: Vec<CapacityPoint>)
        ensures
            points@ == usable_points(self@),
    {
        let mut points: Vec<CapacityPoint> = Vec::new();
        if let Some(temp) = self.lowest_temp {
            if let Some(capacity) = self.btu_lowest_max {
                points.push(CapacityPoint { temp, capacity });
            }
        }
        if let Some(capacity) = self.btu_5_max {
            points.push(CapacityPoint { temp: TEMP_5, capacity });
        }
        if let Some(capacity) = self.btu_17_max {
            points.push(CapacityPoint { temp: TEMP_17, capacity });
        }
        if let Some(capacity) = self.btu_47_max {
            points.push(CapacityPoint { temp: TEMP_47, capacity });
        }
        proof {
            assert(points@ =~= usable_points(self@));
        }
        points
    }

    /// Heating capacity at `target_temp`, in thousandths of a Btu/h.
    ///
    /// Without any usable point the result is 0, with one it is that point's
    /// capacity; otherwise it lies on the line through the bracketing pair,
    /// which also extends the range below its coldest and above its warmest
    /// point.  At the temperature of a usable point the result is exactly the
    /// capacity of the first such point.
    pub fn calculate_heating_capacity_at_temp(&self, target_temp: i64) -> (capacity: Wide)
        ensures
            capacity@ == capacity_at(self@, target_temp as int),
            capacity.normal(),
            usable_points(self@).len() == 0 ==> capacity@ == 0,
            usable_points(self@).len() == 1 ==> capacity@ == usable_points(self@)[0].capacity,
            first_at(usable_points(self@), target_temp as int) matches Some(node) ==> capacity@
                == node.capacity,
    {
        proof {
            if first_at(usable_points(self@), target_temp as int) is Some {
                lemma_exact_at_node(self@, target_temp as int);
            }
        }
        let points = self.capacity_points();
        if points.len() == 0 {
            return Wide { negative: false, magnitude: 0 };
        }
        if points.len() == 1 {
            return Wide::from_i64(points[0].capacity);
        }
        let sorted = sort_points(&points);
        let start = find_bracket(&sorted, target_temp);
        interpolate_between(sorted[start], sorted[start + 1], target_temp)
    }

    /// Heating capacity of `quantity` units at `target_temp`, in thousandths
    /// of a Btu/h: the exact capacity of one unit times the quantity, rounded
    /// towards negative infinity after the multiplication.  `None` if the
    /// product is beyond the range of `i128`.
    pub fn capacity_of_quantity(&self, target_temp: i64, quantity: u128) -> (product: Option<i128>)
        ensures
            match product {
                Some(p) => p == capacity_times(self@, target_temp as int, quantity as int),
                None => !fits(capacity_times(self@, target_temp as int, quantity as int)),
            },
    {
        let points = self.capacity_points();
        if points.len() == 0 {
            return Some(0);
        }
        if points.len() == 1 {
            return Wide::from_i64(points[0].capacity).times(quantity);
        }
        let sorted = sort_points(&points);
        let start = find_bracket(&sorted, target_temp);
        interpolate_times_between(sorted[start], sorted[start + 1], target_temp, quantity)
    }
}

} // verus!

//! Resolving a request against a catalog: quantities per canonical model,
//! and the lines that found no record.

use vstd::prelude::*;
use crate::catalog::canonical_model;
use crate::catalog::Catalog;
use crate::catalog::RecordView;
use crate::demand::add_line;
use crate::demand::distinct_identifiers;
use crate::demand::has_line;
use crate::demand::lemma_add_line;
use crate::demand::lemma_line_within_total;
use crate::demand::lemma_lines_within;
use crate::demand::lemma_total_update;
use crate::demand::line_of;
use crate::demand::lines_of;
use crate::demand::quantity_for;
use crate::demand::total_quantity;
use crate::demand::Demand;
use crate::demand::DemandEntry;
use crate::text::lemma_lex_irreflexive;
use crate::text::lemma_lex_total;
use crate::text::lemma_lex_transitive;
use crate::text::lex_lt;
use crate::text::rank;
use crate::text::Rank;

verus! {

/// `rows` after `quantity` more of `model` were asked for, where `rows` is
/// kept in ascending order of model number: added to the row of `model`, or
/// put on a new row at its place in the order.
pub open spec fn merge_line(rows: Seq<(Seq<char>, nat)>, model: Seq<char>, quantity: nat) -> Seq<
    (Seq<char>, nat),
>
    decreases rows.len(),
{
    if rows.len() == 0 {
        seq![(model, quantity)]
    } else if rows.last().0 == model {
        rows.update(rows.len() - 1, (model, rows.last().1 + quantity))
    } else if lex_lt(rows.last().0, model) {
        rows.push((model, quantity))
    } else {
        merge_line(rows.drop_last(), model, quantity).push(rows.last())
    }
}

/// The quantities asked for per canonical model, in ascending order of model
/// number.  A line counts for the model number of the record that its
/// identifier finds; a line that finds none counts for nothing.
pub open spec fn canonical_demand(lines: Seq<(Seq<char>, nat)>, records: Seq<RecordView>) -> Seq<
    (Seq<char>, nat),
>
    decreases lines.len(),
{
    if lines.len() == 0 {
        Seq::empty()
    } else {
        let rest = canonical_demand(lines.drop_last(), records);
        match canonical_model(records, lines.last().0) {
            Some(model) => merge_line(rest, model, lines.last().1),
            None => rest,
        }
    }
}

/// The lines whose identifier finds no record, in their order.
pub open spec fn unresolved(lines: Seq<(Seq<char>, nat)>, records: Seq<RecordView>) -> Seq<
    (Seq<char>, nat),
>
    decreases lines.len(),
{
    if lines.len() == 0 {
        Seq::empty()
    } else {
        let rest = unresolved(lines.drop_last(), records);
        match canonical_model(records, lines.last().0) {
            Some(_) => rest,
            None => rest.push(lines.last()),
        }
    }
}

/// The unresolved lines are the lines of the request, in their order, whose
/// identifier finds no record.
pub proof fn lemma_unresolved_is_filter(lines: Seq<(Seq<char>, nat)>, records: Seq<RecordView>)
    ensures
        unresolved(lines, records) == lines.filter(
            |line: (Seq<char>, nat)| canonical_model(records, line.0) is None,
        ),
    decreases lines.len(),
{
    reveal(Seq::filter);
    if lines.len() > 0 {
        lemma_unresolved_is_filter(lines.drop_last(), records);
    }
}

/// Merging adds the quantity to the total.
pub proof fn lemma_merge_total(rows: Seq<(Seq<char>, nat)>, model: Seq<char>, quantity: nat)
    ensures
        total_quantity(merge_line(rows, model, quantity)) == total_quantity(rows) + quantity,
    decreases rows.len(),
{
    let merged = merge_line(rows, model, quantity);
    if rows.len() == 0 {
        assert(merged.drop_last() =~= rows);
    } else if rows.last().0 == model {
        lemma_total_update(rows, rows.len() - 1, (model, rows.last().1 + quantity));
    } else if lex_lt(rows.last().0, model) {
        assert(merged.drop_last() =~= rows);
    } else {
        lemma_merge_total(rows.drop_last(), model, quantity);
        assert(merged.drop_last() =~= merge_line(rows.drop_last(), model, quantity));
    }
}

/// Every quantity of the request is counted once: for a canonical model or
/// as unresolved.
pub proof fn lemma_nothing_lost(lines: Seq<(Seq<char>, nat)>, records: Seq<RecordView>)
    ensures
        total_quantity(canonical_demand(lines, records)) + total_quantity(
            unresolved(lines, records),
        ) == total_quantity(lines),
    decreases lines.len(),
{
    if lines.len() > 0 {
        let head = lines.drop_last();
        lemma_nothing_lost(head, records);
        match canonical_model(records, lines.last().0) {
            Some(model) => {
                lemma_merge_total(canonical_demand(head, records), model, lines.last().1);
            },
            None => {
                assert(unresolved(lines, records).drop_last() =~= unresolved(head, records));
            },
        }
    }
}

/// Whether model numbers strictly rise along `rows`.
pub open spec fn strictly_ascending(rows: Seq<(Seq<char>, nat)>) -> bool {
    forall|i: int, j: int|
        0 <= i < j < rows.len() ==> lex_lt((#[trigger] rows[i]).0, (#[trigger] rows[j]).0)
}

/// Whether some line of `lines` finds a record with model number `model`.
pub open spec fn resolves_to(
    lines: Seq<(Seq<char>, nat)>,
    records: Seq<RecordView>,
    model: Seq<char>,
) -> bool {
    exists|j: int|
        0 <= j < lines.len() && canonical_model(records, (#[trigger] lines[j]).0) == Some(model)
}

/// The quantities of the lines that find a record with model number `model`,
/// together.
pub open spec fn canonical_quantity(
    lines: Seq<(Seq<char>, nat)>,
    records: Seq<RecordView>,
    model: Seq<char>,
) -> nat
    decreases lines.len(),
{
    if lines.len() == 0 {
        0
    } else {
        canonical_quantity(lines.drop_last(), records, model) + if canonical_model(
            records,
            lines.last().0,
        ) == Some(model) {
            lines.last().1
        } else {
            0
        }
    }
}

/// Rows whose model numbers strictly rise are about distinct models.
pub proof fn lemma_ascending_distinct(rows: Seq<(Seq<char>, nat)>)
    requires
        strictly_ascending(rows),
    ensures
        distinct_identifiers(rows),
{
    assert forall|i: int, j: int| 0 <= i < j < rows.len() implies (#[trigger] rows[i]).0 != (
    #[trigger] rows[j]).0 by {
        lemma_lex_irreflexive(rows[i].0);
    }
}

/// The shape of a merge into strictly ascending rows: the row of the model
/// takes the quantity, or a new row stands between the smaller and the
/// greater model numbers.
proof fn lemma_merge_shape(rows: Seq<(Seq<char>, nat)>, model: Seq<char>, quantity: nat) -> (p: int)
    requires
        strictly_ascending(rows),
    ensures
        has_line(rows, model) ==> merge_line(rows, model, quantity) == add_line(
            rows,
            model,
            quantity,
        ),
        !has_line(rows, model) ==> {
            &&& 0 <= p <= rows.len()
            &&& merge_line(rows, model, quantity) == rows.insert(p, (model, quantity))
            &&& forall|i: int| 0 <= i < p ==> lex_lt((#[trigger] rows[i]).0, model)
            &&& forall|i: int| p <= i < rows.len() ==> lex_lt(model, (#[trigger] rows[i]).0)
        },
    decreases rows.len(),
{
    lemma_ascending_distinct(rows);
    let n = rows.len() as int;
    if n == 0 {
        assert(rows.insert(0, (model, quantity)) =~= seq![(model, quantity)]);
        0
    } else if rows.last().0 == model {
        assert(rows[n - 1].0 == model);
        assert(line_of(rows, model) == n - 1);
        0
    } else if lex_lt(rows.last().0, model) {
        assert forall|i: int| 0 <= i < n implies lex_lt((#[trigger] rows[i]).0, model) by {
            if i < n - 1 {
                lemma_lex_transitive(rows[i].0, rows[n - 1].0, model);
            }
        }
        assert(!has_line(rows, model)) by {
            if has_line(rows, model) {
                let i = line_of(rows, model);
                lemma_lex_irreflexive(rows[i].0);
            }
        }
        assert(rows.insert(n, (model, quantity)) =~= rows.push((model, quantity)));
        n
    } else {
        let head = rows.drop_last();
        lemma_lex_total(rows.last().0, model);
        assert forall|i: int, j: int| 0 <= i < j < head.len() implies lex_lt(
            (#[trigger] head[i]).0,
            (#[trigger] head[j]).0,
        ) by {
            assert(head[i] == rows[i] && head[j] == rows[j]);
        }
        let p = lemma_merge_shape(head, model, quantity);
        lemma_ascending_distinct(head);
        if has_line(head, model) {
            let at = line_of(head, model);
            assert(rows[at].0 == model);
            assert(line_of(rows, model) == at);
            assert(head.update(at, (model, head[at].1 + quantity)).push(rows.last()) =~= rows.update(
                at,
                (model, rows[at].1 + quantity),
            ));
            0
        } else {
            assert(!has_line(rows, model)) by {
                if has_line(rows, model) {
                    let i = line_of(rows, model);
                    assert(head[i].0 == model);
                }
            }
            assert(head.insert(p, (model, quantity)).push(rows.last()) =~= rows.insert(
                p,
                (model, quantity),
            ));
            assert forall|i: int| 0 <= i < p implies lex_lt((#[trigger] rows[i]).0, model) by {
                assert(head[i] == rows[i]);
            }
            assert forall|i: int| p <= i < rows.len() implies lex_lt(
                model,
                (#[trigger] rows[i]).0,
            ) by {
                if i < n - 1 {
                    assert(head[i] == rows[i]);
                }
            }
            p
        }
    }
}

/// What merging does to strictly ascending rows: they stay strictly
/// ascending, the model gains the quantity, and no other model changes.
pub proof fn lemma_merge_line(rows: Seq<(Seq<char>, nat)>, model: Seq<char>, quantity: nat)
    requires
        strictly_ascending(rows),
    ensures
        strictly_ascending(merge_line(rows, model, quantity)),
        forall|other: Seq<char>|
            has_line(merge_line(rows, model, quantity), other) == (has_line(rows, other) || other
                == model),
        forall|other: Seq<char>|
            quantity_for(merge_line(rows, model, quantity), other) == quantity_for(rows, other)
                + if other == model {
                quantity
            } else {
                0
            },
{
    let merged = merge_line(rows, model, quantity);
    let p = lemma_merge_shape(rows, model, quantity);
    lemma_ascending_distinct(rows);
    if has_line(rows, model) {
        let at = line_of(rows, model);
        lemma_add_line(rows, model, quantity);
        assert forall|i: int, j: int| 0 <= i < j < merged.len() implies lex_lt(
            (#[trigger] merged[i]).0,
            (#[trigger] merged[j]).0,
        ) by {
            assert(merged[i].0 == rows[i].0 && merged[j].0 == rows[j].0);
        }
        assert forall|other: Seq<char>|
            has_line(merged, other) == (has_line(rows, other) || other == model) by {
            if has_line(merged, other) {
                let i = line_of(merged, other);
                assert(rows[i].0 == other);
            }
            if has_line(rows, other) {
                let i = line_of(rows, other);
                assert(merged[i].0 == other);
            }
        }
    } else {
        assert forall|i: int, j: int| 0 <= i < j < merged.len() implies lex_lt(
            (#[trigger] merged[i]).0,
            (#[trigger] merged[j]).0,
        ) by {
            if j < p {
                assert(merged[i] == rows[i] && merged[j] == rows[j]);
            } else if j == p {
                assert(merged[i] == rows[i]);
            } else if i < p {
                assert(merged[i] == rows[i] && merged[j] == rows[j - 1]);
            } else if i == p {
                assert(merged[j] == rows[j - 1]);
            } else {
                assert(merged[i] == rows[i - 1] && merged[j] == rows[j - 1]);
            }
        }
        lemma_ascending_distinct(merged);
        assert forall|other: Seq<char>|
            has_line(merged, other) == (has_line(rows, other) || other == model)
                && quantity_for(merged, other) == quantity_for(rows, other) + if other == model {
                quantity
            } else {
                0
            } by {
            if other == model {
                assert(merged[p].0 == other);
                assert(line_of(merged, other) == p);
            } else if has_line(rows, other) {
                let i = line_of(rows, other);
                let i2 = if i < p {
                    i
                } else {
                    i + 1
                };
                assert(merged[i2] == rows[i]);
                assert(line_of(merged, other) == i2);
            } else if has_line(merged, other) {
                let j = line_of(merged, other);
                if j < p {
                    assert(rows[j].0 == other);
                } else {
                    assert(rows[j - 1].0 == other);
                }
            }
        }
    }
}

/// The quantities per canonical model stand in strictly ascending order of
/// model number, one row for each model that some line of the request
/// finds, and each row holds the sum of the quantities of all lines that
/// find its model.
pub proof fn lemma_canonical_demand(lines: Seq<(Seq<char>, nat)>, records: Seq<RecordView>)
    ensures
        strictly_ascending(canonical_demand(lines, records)),
        forall|model: Seq<char>|
            has_line(canonical_demand(lines, records), model) == resolves_to(lines, records, model),
        forall|model: Seq<char>|
            quantity_for(canonical_demand(lines, records), model) == canonical_quantity(
                lines,
                records,
                model,
            ),
    decreases lines.len(),
{
    let demand = canonical_demand(lines, records);
    if lines.len() == 0 {
        assert forall|model: Seq<char>|
            has_line(demand, model) == resolves_to(lines, records, model) && quantity_for(
                demand,
                model,
            ) == canonical_quantity(lines, records, model) by {
            assert(!has_line(demand, model));
        }
    } else {
        let head = lines.drop_last();
        let rest = canonical_demand(head, records);
        lemma_canonical_demand(head, records);
        let found = canonical_model(records, lines.last().0);
        if found is Some {
            lemma_merge_line(rest, found->0, lines.last().1);
        }
        assert forall|model: Seq<char>|
            has_line(demand, model) == resolves_to(lines, records, model) && quantity_for(
                demand,
                model,
            ) == canonical_quantity(lines, records, model) by {
            assert(has_line(rest, model) == resolves_to(head, records, model));
            assert(quantity_for(rest, model) == canonical_quantity(head, records, model));
            if resolves_to(head, records, model) {
                let j = choose|j: int|
                    0 <= j < head.len() && canonical_model(records, (#[trigger] head[j]).0) == Some(
                        model,
                    );
                assert(lines[j] == head[j]);
            }
            if resolves_to(lines, records, model) {
                let j = choose|j: int|
                    0 <= j < lines.len() && canonical_model(records, (#[trigger] lines[j]).0)
                        == Some(model);
                if j < head.len() {
                    assert(lines[j] == head[j]);
                }
            }
            if found == Some(model) {
                assert(lines[lines.len() - 1] == lines.last());
            }
        }
    }
}

/// The quantity asked for one canonical model.  It is wide enough for the
/// sum over any request.
#[derive(Debug)]
pub struct ModelQuantity {
    pub model_number: String,
    pub quantity: u128,
}

impl View for ModelQuantity {
    type V = (Seq<char>, nat);

    open spec fn view(&self) -> (Seq<char>, nat) {
        (self.model_number@, self.quantity as nat)
    }
}

/// The quantities per model as lines.
pub open spec fn model_lines(entries: Seq<ModelQuantity>) -> Seq<(Seq<char>, nat)> {
    entries.map_values(|e: ModelQuantity| e@)
}

/// Merges `quantity` of `model` into rows kept in ascending order.
fn merge_into(rows: &mut Vec<ModelQuantity>, model: String, quantity: u32)
    requires
        total_quantity(model_lines(old(rows)@)) + quantity <= u128::MAX,
    ensures
        model_lines(final(rows)@) == merge_line(model_lines(old(rows)@), model@, quantity as nat),
{
    let ghost before = model_lines(rows@);
    let ghost named = model@;
    let mut k: usize = rows.len();
    proof {
        assert(before.take(k as int) + before.skip(k as int) =~= before);
        assert(before.take(k as int) =~= before);
    }
    while k > 0
        invariant
            k <= rows.len(),
            rows@ == old(rows)@,
            before == model_lines(rows@),
            named == model@,
            total_quantity(before) + quantity <= u128::MAX,
            merge_line(before, model@, quantity as nat) == merge_line(
                before.take(k as int),
                model@,
                quantity as nat,
            ) + before.skip(k as int),
        decreases k,
    {
        let ghost head = before.take(k as int);
        proof {
            assert(head.last() == before[k - 1]);
            assert(head.drop_last() =~= before.take(k - 1));
        }
        match rank(rows[k - 1].model_number.as_str(), model.as_str()) {
            Rank::Same => {
                proof {
                    lemma_line_within_total(before, k - 1);
                }
                let sum: u128 = rows[k - 1].quantity + quantity as u128;
                rows.set(k - 1, ModelQuantity { model_number: model, quantity: sum });
                proof {
                    assert(model_lines(rows@) =~= head.update(
                        k - 1,
                        (named, before[k - 1].1 + quantity as nat),
                    ) + before.skip(k as int));
                }
                return ;
            },
            Rank::Before => {
                rows.insert(k, ModelQuantity { model_number: model, quantity: quantity as u128 });
                proof {
                    assert(model_lines(rows@) =~= head.push((named, quantity as nat)) + before.skip(
                        k as int,
                    ));
                }
                return ;
            },
            Rank::After => {
                proof {
                    assert(merge_line(before.take(k - 1), named, quantity as nat).push(
                        before[k - 1],
                    ) + before.skip(k as int) =~= merge_line(
                        before.take(k - 1),
                        named,
                        quantity as nat,
                    ) + before.skip(k - 1));
                }
                k = k - 1;
            },
        }
    }
    rows.insert(0, ModelQuantity { model_number: model, quantity: quantity as u128 });
    proof {
        assert(before.take(0) =~= Seq::<(Seq<char>, nat)>::empty());
        assert(model_lines(rows@) =~= seq![(named, quantity as nat)] + before.skip(0));
    }
}

/// What a request comes to against a catalog.
#[derive(Debug)]
pub struct Aggregation {
    /// Quantity per canonical model, in ascending order of model number.
    pub resolved: Vec<ModelQuantity>,
    /// The lines that found no record, in the order of the request.
    pub not_found: Vec<DemandEntry>,
}

/// Resolves each line of a request against the catalog and sums the
/// quantities per canonical model.
pub fn aggregate(requested: &Demand, catalog: &Catalog) -> (result: Aggregation)
    requires
        requested.wf(),
    ensures
        model_lines(result.resolved@) == canonical_demand(requested@, catalog@),
        lines_of(result.not_found@) == unresolved(requested@, catalog@),
        strictly_ascending(model_lines(result.resolved@)),
        forall|model: Seq<char>|
            has_line(model_lines(result.resolved@), model) == resolves_to(
                requested@,
                catalog@,
                model,
            ),
        forall|model: Seq<char>|
            quantity_for(model_lines(result.resolved@), model) == canonical_quantity(
                requested@,
                catalog@,
                model,
            ),
        total_quantity(model_lines(result.resolved@)) + total_quantity(lines_of(result.not_found@))
            == total_quantity(requested@),
{
    let mut resolved: Vec<ModelQuantity> = Vec::new();
    let mut not_found: Vec<DemandEntry> = Vec::new();
    let mut i: usize = 0;
    proof {
        assert(model_lines(resolved@) =~= canonical_demand(requested@.take(0), catalog@));
        assert(lines_of(not_found@) =~= unresolved(requested@.take(0), catalog@));
    }
    while i < requested.len()
        invariant
            requested.wf(),
            i <= requested@.len(),
            model_lines(resolved@) == canonical_demand(requested@.take(i as int), catalog@),
            lines_of(not_found@) == unresolved(requested@.take(i as int), catalog@),
        decreases requested@.len() - i,
    {
        let line = requested.entry(i);
        proof {
            assert(requested@.take(i + 1).drop_last() =~= requested@.take(i as int));
            assert(requested@.take(i + 1).last() == line@);
            lemma_nothing_lost(requested@.take(i as int), catalog@);
            let part = requested@.take(i + 1);
            assert forall|j: int| 0 <= j < part.len() implies (#[trigger] part[j]).1
                <= u32::MAX by {
                assert(part[j] == requested@[j]);
            }
            lemma_lines_within(part, u32::MAX as nat);
            assert(part.len() * (u32::MAX as nat) <= 0xFFFF_FFFF_FFFF_FFFF * 0xFFFF_FFFF)
                by (nonlinear_arith)
                requires
                    part.len() <= 0xFFFF_FFFF_FFFF_FFFF,
            ;
        }
        match catalog.get(line.identifier.as_str()) {
            Some(record) => {
                merge_into(&mut resolved, record.model_number.clone(), line.quantity);
            },
            None => {
                not_found.push(
                    DemandEntry { identifier: line.identifier.clone(), quantity: line.quantity },
                );
                proof {
                    assert(lines_of(not_found@) =~= unresolved(
                        requested@.take(i as int),
                        catalog@,
                    ).push(line@));
                }
            },
        }
        i = i + 1;
    }
    proof {
        assert(requested@.take(i as int) =~= requested@);
        lemma_canonical_demand(requested@, catalog@);
        lemma_nothing_lost(requested@, catalog@);
    }
    Aggregation { resolved, not_found }
}

} // verus!

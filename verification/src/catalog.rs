//! Equipment records and the catalog that finds them by either of their
//! two identifiers.

use vstd::prelude::*;
use crate::text::same_text;

verus! {

/// One catalog entry.  Every numeric field is optional on its own; a missing
/// value is `None`, never zero.  Temperatures and capacities are stored in
/// thousandths (see [`crate::fixed::SCALE`]).
#[derive(Debug)]
pub struct MachineData {
    /// Full model number, the primary key.
    pub model_number: String,
    /// Short machine code, the secondary key.
    pub machine_code: Option<String>,
    /// Certification reference number.
    pub ahri: Option<u64>,
    /// Rated minimum cooling capacity at 95 degrees.
    pub btu_95_min: Option<i64>,
    /// Maximum heating capacity at the lowest rated temperature.
    pub btu_lowest_max: Option<i64>,
    /// Lowest rated outdoor temperature.
    pub lowest_temp: Option<i64>,
    /// Maximum heating capacity at 5 degrees.
    pub btu_5_max: Option<i64>,
    /// Maximum heating capacity at 17 degrees.
    pub btu_17_max: Option<i64>,
    /// Rated heating capacity at 17 degrees; reported, never interpolated.
    pub btu_17_rated: Option<i64>,
    /// Maximum heating capacity at 47 degrees.
    pub btu_47_max: Option<i64>,
}

/// What a [`MachineData`] holds, with its strings as character sequences.
pub struct RecordView {
    pub model_number: Seq<char>,
    pub machine_code: Option<Seq<char>>,
    pub ahri: Option<u64>,
    pub btu_95_min: Option<i64>,
    pub btu_lowest_max: Option<i64>,
    pub lowest_temp: Option<i64>,
    pub btu_5_max: Option<i64>,
    pub btu_17_max: Option<i64>,
    pub btu_17_rated: Option<i64>,
    pub btu_47_max: Option<i64>,
}

impl View for MachineData {
    type V = RecordView;

    open spec fn view(&self) -> RecordView {
        RecordView {
            model_number: self.model_number@,
            machine_code: match self.machine_code {
                Some(code) => Some(code@),
                None => None,
            },
            ahri: self.ahri,
            btu_95_min: self.btu_95_min,
            btu_lowest_max: self.btu_lowest_max,
            lowest_temp: self.lowest_temp,
            btu_5_max: self.btu_5_max,
            btu_17_max: self.btu_17_max,
            btu_17_rated: self.btu_17_rated,
            btu_47_max: self.btu_47_max,
        }
    }
}

impl Clone for MachineData {
    fn clone(&self) -> (copy: MachineData)
        ensures
            copy@ == self@,
    {
        MachineData {
            model_number: self.model_number.clone(),
            machine_code: match &self.machine_code {
                Some(code) => Some(code.clone()),
                None => None,
            },
            ahri: self.ahri,
            btu_95_min: self.btu_95_min,
            btu_lowest_max: self.btu_lowest_max,
            lowest_temp: self.lowest_temp,
            btu_5_max: self.btu_5_max,
            btu_17_max: self.btu_17_max,
            btu_17_rated: self.btu_17_rated,
            btu_47_max: self.btu_47_max,
        }
    }
}

/// Readings at or below this value stand for "no data".
pub const NO_DATA: i64 = -90_000_000;

/// A reading as a record holds it: absent if it is at or below [`NO_DATA`],
/// else present as it is.
pub fn usable_reading(value: i64) -> (reading: Option<i64>)
    ensures
        reading == if value <= NO_DATA {
            None
        } else {
            Some(value)
        },
{
    if value <= NO_DATA {
        None
    } else {
        Some(value)
    }
}

/// A certification number as a record holds it: absent unless positive.
pub fn usable_ahri(value: i64) -> (ahri: Option<u64>)
    ensures
        ahri == if value > 0 {
            Some(value as u64)
        } else {
            None
        },
{
    if value > 0 {
        Some(value as u64)
    } else {
        None
    }
}

/// The records of a catalog in the order in which they were added.  Each
/// record answers to its model number and, if it has one, to its machine
/// code; where several records answer to an identifier, the one added last
/// is found.
#[derive(Debug)]
pub struct Catalog {
    records: Vec<MachineData>,
}

/// Whether `identifier` is the model number or the machine code of `r`.
pub open spec fn answers_to(r: RecordView, identifier: Seq<char>) -> bool {
    r.model_number == identifier || r.machine_code == Some(identifier)
}

/// Index of the last record that answers to `identifier`.
pub open spec fn lookup_index(records: Seq<RecordView>, identifier: Seq<char>) -> Option<int>
    decreases records.len(),
{
    if records.len() == 0 {
        None
    } else if answers_to(records.last(), identifier) {
        Some(records.len() - 1)
    } else {
        lookup_index(records.drop_last(), identifier)
    }
}

/// The record found for `identifier`.
pub open spec fn lookup(records: Seq<RecordView>, identifier: Seq<char>) -> Option<RecordView> {
    match lookup_index(records, identifier) {
        Some(i) => Some(records[i]),
        None => None,
    }
}

/// The model number of the record found for `identifier`.
pub open spec fn canonical_model(records: Seq<RecordView>, identifier: Seq<char>) -> Option<
    Seq<char>,
> {
    match lookup_index(records, identifier) {
        Some(i) => Some(records[i].model_number),
        None => None,
    }
}

/// `lookup_index` finds a record exactly if one answers, and then the last
/// one that does.
pub proof fn lemma_lookup_index(records: Seq<RecordView>, identifier: Seq<char>)
    ensures
        match lookup_index(records, identifier) {
            Some(i) => {
                &&& 0 <= i < records.len()
                &&& answers_to(records[i], identifier)
                &&& forall|j: int| i < j < records.len() ==> !answers_to(records[j], identifier)
            },
            None => forall|j: int| 0 <= j < records.len() ==> !answers_to(records[j], identifier),
        },
    decreases records.len(),
{
    if records.len() > 0 && !answers_to(records.last(), identifier) {
        let head = records.drop_last();
        lemma_lookup_index(head, identifier);
        match lookup_index(head, identifier) {
            Some(i) => {
                assert(head[i] == records[i]);
                assert forall|j: int| i < j < records.len() implies !answers_to(
                    records[j],
                    identifier,
                ) by {
                    if j < head.len() {
                        assert(head[j] == records[j]);
                    }
                }
            },
            None => {
                assert forall|j: int| 0 <= j < records.len() implies !answers_to(
                    records[j],
                    identifier,
                ) by {
                    if j < head.len() {
                        assert(head[j] == records[j]);
                    }
                }
            },
        }
    }
}

/// The model number found for an identifier is itself found in the catalog.
pub proof fn lemma_canonical_is_found(records: Seq<RecordView>, identifier: Seq<char>)
    requires
        canonical_model(records, identifier) is Some,
    ensures
        lookup_index(records, canonical_model(records, identifier)->0) is Some,
{
    lemma_lookup_index(records, identifier);
    let i = lookup_index(records, identifier)->0;
    let model = records[i].model_number;
    lemma_lookup_index(records, model);
    assert(answers_to(records[i], model));
}

impl View for Catalog {
    type V = Seq<RecordView>;

    closed spec fn view(&self) -> Seq<RecordView> {
        self.records@.map_values(|r: MachineData| r@)
    }
}

impl Catalog {
    /// A catalog without records.
    pub fn new() -> (catalog: Catalog)
        ensures
            catalog@ == Seq::<RecordView>::empty(),
    {
        let catalog = Catalog { records: Vec::new() };
        proof {
            assert(catalog@ =~= Seq::<RecordView>::empty());
        }
        catalog
    }

    /// A catalog of the given records, in their order.
    pub fn from_records(records: Vec<MachineData>) -> (catalog: Catalog)
        ensures
            catalog@ == records@.map_values(|r: MachineData| r@),
    {
        Catalog { records }
    }

    /// Adds a record behind those already there.
    pub fn insert(&mut self, record: MachineData)
        ensures
            final(self)@ == old(self)@.push(record@),
    {
        self.records.push(record);
        proof {
            assert(self@ =~= old(self)@.push(record@));
        }
    }

    /// Number of records.
    pub fn len(&self) -> (n: usize)
        ensures
            n == self@.len(),
    {
        self.records.len()
    }

    /// The record that answers to `identifier`: the last one added whose
    /// model number or machine code it is.
    pub fn get(&self, identifier: &str) -> (found: Option<&MachineData>)
        ensures
            match found {
                Some(record) => lookup(self@, identifier@) == Some(record@),
                None => lookup(self@, identifier@) is None,
            },
    {
        let mut i: usize = self.records.len();
        proof {
            assert(self@.take(i as int) =~= self@);
        }
        while i > 0
            invariant
                i <= self.records.len(),
                lookup_index(self@, identifier@) == lookup_index(self@.take(i as int), identifier@),
            decreases i,
        {
            let record = &self.records[i - 1];
            let by_model = same_text(record.model_number.as_str(), identifier);
            let by_code = match &record.machine_code {
                Some(code) => same_text(code.as_str(), identifier),
                None => false,
            };
            proof {
                assert(self@.take(i as int).last() == record@);
                assert(self@.take(i as int).drop_last() =~= self@.take(i - 1));
            }
            if by_model || by_code {
                return Some(record);
            }
            i = i - 1;
        }
        None
    }
}

} // verus!

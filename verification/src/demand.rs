//! The request: which identifiers are asked for, and how many of each.

use vstd::prelude::*;
use crate::text::same_text;
use crate::token::parse_token;
use crate::token::token_identifier;
use crate::token::token_quantity;
use crate::token::token_readable;
use crate::token::ParseError;

verus! {

/// One line of a request.
#[derive(Debug)]
pub struct DemandEntry {
    pub identifier: String,
    pub quantity: u32,
}

impl View for DemandEntry {
    type V = (Seq<char>, nat);

    open spec fn view(&self) -> (Seq<char>, nat) {
        (self.identifier@, self.quantity as nat)
    }
}

/// A request: lines of distinct identifiers, in the order in which each
/// identifier was first asked for.
#[derive(Debug)]
pub struct Demand {
    entries: Vec<DemandEntry>,
}

/// The lines that entries stand for.
pub open spec fn lines_of(entries: Seq<DemandEntry>) -> Seq<(Seq<char>, nat)> {
    entries.map_values(|e: DemandEntry| e@)
}

/// Whether some line of `lines` is about `identifier`.
pub open spec fn has_line(lines: Seq<(Seq<char>, nat)>, identifier: Seq<char>) -> bool {
    exists|i: int| 0 <= i < lines.len() && (#[trigger] lines[i]).0 == identifier
}

/// Index of a line about `identifier`.
pub open spec fn line_of(lines: Seq<(Seq<char>, nat)>, identifier: Seq<char>) -> int {
    choose|i: int| 0 <= i < lines.len() && (#[trigger] lines[i]).0 == identifier
}

/// Whether no two lines are about the same identifier.
pub open spec fn distinct_identifiers(lines: Seq<(Seq<char>, nat)>) -> bool {
    forall|i: int, j: int|
        0 <= i < j < lines.len() ==> (#[trigger] lines[i]).0 != (#[trigger] lines[j]).0
}

/// The quantity that `lines` holds for `identifier`; 0 without such a line.
pub open spec fn quantity_for(lines: Seq<(Seq<char>, nat)>, identifier: Seq<char>) -> nat {
    if has_line(lines, identifier) {
        lines[line_of(lines, identifier)].1
    } else {
        0
    }
}

/// All quantities of `lines` together.
pub open spec fn total_quantity(lines: Seq<(Seq<char>, nat)>) -> nat
    decreases lines.len(),
{
    if lines.len() == 0 {
        0
    } else {
        total_quantity(lines.drop_last()) + lines.last().1
    }
}

/// `lines` after `quantity` more of `identifier` were asked for: added to
/// the line about it, or put on a new line at the end.
pub open spec fn add_line(lines: Seq<(Seq<char>, nat)>, identifier: Seq<char>, quantity: nat) -> Seq<
    (Seq<char>, nat),
> {
    if has_line(lines, identifier) {
        let at = line_of(lines, identifier);
        lines.update(at, (identifier, lines[at].1 + quantity))
    } else {
        lines.push((identifier, quantity))
    }
}

/// The request that a list of tokens makes.
pub open spec fn requested(tokens: Seq<Seq<char>>) -> Seq<(Seq<char>, nat)>
    decreases tokens.len(),
{
    if tokens.len() == 0 {
        Seq::empty()
    } else {
        add_line(
            requested(tokens.drop_last()),
            token_identifier(tokens.last()),
            token_quantity(tokens.last()),
        )
    }
}

/// The quantities of all tokens together.
pub open spec fn quantity_sum(tokens: Seq<Seq<char>>) -> nat
    decreases tokens.len(),
{
    if tokens.len() == 0 {
        0
    } else {
        quantity_sum(tokens.drop_last()) + token_quantity(tokens.last())
    }
}

/// The quantities of the tokens that name `identifier`, together.
pub open spec fn quantity_asked(tokens: Seq<Seq<char>>, identifier: Seq<char>) -> nat
    decreases tokens.len(),
{
    if tokens.len() == 0 {
        0
    } else {
        quantity_asked(tokens.drop_last(), identifier) + if token_identifier(tokens.last())
            == identifier {
            token_quantity(tokens.last())
        } else {
            0
        }
    }
}

/// The tokens as character sequences.
pub open spec fn token_views(inputs: Seq<String>) -> Seq<Seq<char>> {
    inputs.map_values(|t: String| t@)
}

/// Changing the quantity of one line changes the total by as much.
pub proof fn lemma_total_update(lines: Seq<(Seq<char>, nat)>, at: int, line: (Seq<char>, nat))
    requires
        0 <= at < lines.len(),
    ensures
        total_quantity(lines.update(at, line)) + lines[at].1 == total_quantity(lines) + line.1,
    decreases lines.len(),
{
    let changed = lines.update(at, line);
    if at == lines.len() - 1 {
        assert(changed.drop_last() =~= lines.drop_last());
    } else {
        lemma_total_update(lines.drop_last(), at, line);
        assert(changed.drop_last() =~= lines.drop_last().update(at, line));
    }
}

/// No line holds more than the total.
pub proof fn lemma_line_within_total(lines: Seq<(Seq<char>, nat)>, at: int)
    requires
        0 <= at < lines.len(),
    ensures
        lines[at].1 <= total_quantity(lines),
    decreases lines.len(),
{
    if at < lines.len() - 1 {
        lemma_line_within_total(lines.drop_last(), at);
    }
}

/// What `add_line` does to a request of distinct identifiers.
pub proof fn lemma_add_line(lines: Seq<(Seq<char>, nat)>, identifier: Seq<char>, quantity: nat)
    requires
        distinct_identifiers(lines),
    ensures
        distinct_identifiers(add_line(lines, identifier, quantity)),
        total_quantity(add_line(lines, identifier, quantity)) == total_quantity(lines) + quantity,
        forall|other: Seq<char>|
            quantity_for(add_line(lines, identifier, quantity), other) == quantity_for(
                lines,
                other,
            ) + if other == identifier {
                quantity
            } else {
                0
            },
{
    let after = add_line(lines, identifier, quantity);
    if has_line(lines, identifier) {
        let at = line_of(lines, identifier);
        lemma_total_update(lines, at, (identifier, lines[at].1 + quantity));
        assert forall|other: Seq<char>|
            quantity_for(after, other) == quantity_for(lines, other) + if other == identifier {
                quantity
            } else {
                0
            } by {
            if has_line(lines, other) {
                let i = line_of(lines, other);
                assert(after[i].0 == other);
                let j = line_of(after, other);
                assert(after[j].0 == lines[j].0);
            } else if has_line(after, other) {
                let j = line_of(after, other);
                assert(lines[j].0 == other);
            }
        }
    } else {
        assert(after.drop_last() =~= lines);
        assert forall|other: Seq<char>|
            quantity_for(after, other) == quantity_for(lines, other) + if other == identifier {
                quantity
            } else {
                0
            } by {
            if has_line(lines, other) {
                let i = line_of(lines, other);
                assert(after[i].0 == other);
                let j = line_of(after, other);
                if j == lines.len() {
                    assert(lines[i].0 != identifier);
                }
            } else if other == identifier {
                assert(after[lines.len() as int].0 == other);
                let j = line_of(after, other);
                if j < lines.len() {
                    assert(lines[j].0 == other);
                }
            } else if has_line(after, other) {
                let j = line_of(after, other);
                if j < lines.len() {
                    assert(lines[j].0 == other);
                }
            }
        }
    }
}

/// The request made by tokens has distinct identifiers, holds for each
/// identifier the sum of the quantities of the tokens that name it, and in
/// total the sum of all token quantities.
pub proof fn lemma_requested_sums(tokens: Seq<Seq<char>>)
    ensures
        distinct_identifiers(requested(tokens)),
        total_quantity(requested(tokens)) == quantity_sum(tokens),
        forall|identifier: Seq<char>|
            quantity_for(requested(tokens), identifier) == quantity_asked(tokens, identifier),
    decreases tokens.len(),
{
    if tokens.len() > 0 {
        lemma_requested_sums(tokens.drop_last());
        let before = requested(tokens.drop_last());
        let named = token_identifier(tokens.last());
        let quantity = token_quantity(tokens.last());
        lemma_add_line(before, named, quantity);
        assert forall|identifier: Seq<char>|
            quantity_for(requested(tokens), identifier) == quantity_asked(
                tokens,
                identifier,
            ) by {
            assert(quantity_for(add_line(before, named, quantity), identifier) == quantity_for(
                before,
                identifier,
            ) + if identifier == named {
                quantity
            } else {
                0
            });
            assert(quantity_for(before, identifier) == quantity_asked(
                tokens.drop_last(),
                identifier,
            ));
        }
    } else {
        assert forall|identifier: Seq<char>|
            quantity_for(requested(tokens), identifier) == quantity_asked(
                tokens,
                identifier,
            ) by {
            assert(!has_line(requested(tokens), identifier));
        }
    }
}

/// Whether the token at `k` names `identifier`.
pub open spec fn names(tokens: Seq<Seq<char>>, k: int, identifier: Seq<char>) -> bool {
    0 <= k < tokens.len() && token_identifier(tokens[k]) == identifier
}

/// The request has a line for exactly the identifiers that some token names.
pub proof fn lemma_requested_lines(tokens: Seq<Seq<char>>, identifier: Seq<char>)
    ensures
        has_line(requested(tokens), identifier) == exists|k: int| names(tokens, k, identifier),
    decreases tokens.len(),
{
    if tokens.len() == 0 {
        assert(!has_line(requested(tokens), identifier));
    } else {
        let head = tokens.drop_last();
        let before = requested(head);
        let named = token_identifier(tokens.last());
        let quantity = token_quantity(tokens.last());
        let after = requested(tokens);
        lemma_requested_lines(head, identifier);
        lemma_requested_sums(head);
        lemma_add_line(before, named, quantity);
        if has_line(after, identifier) {
            if has_line(before, identifier) {
                let k = choose|k: int| names(head, k, identifier);
                assert(names(tokens, k, identifier));
            } else {
                assert(identifier == named) by {
                    let j = line_of(after, identifier);
                    if j < before.len() {
                        assert(before[j].0 == identifier);
                    }
                }
                assert(names(tokens, tokens.len() - 1, identifier));
            }
        }
        if exists|k: int| names(tokens, k, identifier) {
            let k = choose|k: int| names(tokens, k, identifier);
            if k < head.len() {
                assert(names(head, k, identifier));
                let j = line_of(before, identifier);
                assert(after[j].0 == identifier);
            } else {
                if has_line(before, named) {
                    assert(after[line_of(before, named)].0 == named);
                } else {
                    assert(after[before.len() as int].0 == named);
                }
            }
        }
    }
}

/// The lines of a request stand in the order in which their identifiers are
/// first named: the identifier of an earlier line is named by a token that
/// comes before every token naming the identifier of a later line.
pub proof fn lemma_requested_order(tokens: Seq<Seq<char>>, i: int, j: int)
    requires
        0 <= i < j < requested(tokens).len(),
    ensures
        exists|first: int|
            names(tokens, first, requested(tokens)[i].0) && forall|k: int|
                names(tokens, k, requested(tokens)[j].0) ==> first < k,
    decreases tokens.len(),
{
    let head = tokens.drop_last();
    let before = requested(head);
    let named = token_identifier(tokens.last());
    let after = requested(tokens);
    let last = tokens.len() - 1;
    lemma_requested_sums(head);
    assert(after[i].0 == if i < before.len() {
        before[i].0
    } else {
        named
    });
    assert(after[j].0 == if j < before.len() {
        before[j].0
    } else {
        named
    });
    if j < before.len() {
        lemma_requested_order(head, i, j);
        let first = choose|first: int|
            names(head, first, before[i].0) && forall|k: int|
                names(head, k, before[j].0) ==> first < k;
        assert(names(tokens, first, after[i].0));
        assert forall|k: int| names(tokens, k, after[j].0) implies first < k by {
            if k < last {
                assert(names(head, k, before[j].0));
            }
        }
    } else {
        assert(!has_line(before, named));
        lemma_requested_lines(head, named);
        assert(has_line(before, before[i].0));
        lemma_requested_lines(head, before[i].0);
        let first = choose|first: int| names(head, first, before[i].0);
        assert(names(tokens, first, after[i].0));
        assert forall|k: int| names(tokens, k, after[j].0) implies first < k by {
            if k < last {
                assert(names(head, k, named));
            }
        }
    }
}

/// The quantity asked of an identifier never shrinks as tokens are added.
pub proof fn lemma_quantity_asked_grows(tokens: Seq<Seq<char>>, i: int, identifier: Seq<char>)
    requires
        0 <= i <= tokens.len(),
    ensures
        quantity_asked(tokens.take(i), identifier) <= quantity_asked(tokens, identifier),
    decreases tokens.len() - i,
{
    if i < tokens.len() {
        lemma_quantity_asked_grows(tokens, i + 1, identifier);
        assert(tokens.take(i + 1).drop_last() =~= tokens.take(i));
    } else {
        assert(tokens.take(i) =~= tokens);
    }
}

/// Whether every line holds at most `bound`.
pub open spec fn lines_within(lines: Seq<(Seq<char>, nat)>, bound: nat) -> bool {
    forall|i: int| 0 <= i < lines.len() ==> (#[trigger] lines[i]).1 <= bound
}

/// Lines that each hold at most `bound` hold together at most `bound` times
/// their number, and for no identifier more than `bound`.
pub proof fn lemma_lines_within(lines: Seq<(Seq<char>, nat)>, bound: nat)
    requires
        lines_within(lines, bound),
    ensures
        total_quantity(lines) <= lines.len() * bound,
        forall|identifier: Seq<char>| quantity_for(lines, identifier) <= bound,
    decreases lines.len(),
{
    if lines.len() > 0 {
        let head = lines.drop_last();
        assert forall|i: int| 0 <= i < head.len() implies (#[trigger] head[i]).1 <= bound by {
            assert(head[i] == lines[i]);
        }
        lemma_lines_within(head, bound);
        assert(lines[lines.len() - 1].1 <= bound);
        assert(lines.len() * bound == head.len() * bound + bound) by (nonlinear_arith)
            requires
                lines.len() == head.len() + 1,
        ;
    }
    assert forall|identifier: Seq<char>| quantity_for(lines, identifier) <= bound by {
        if has_line(lines, identifier) {
            let at = line_of(lines, identifier);
            assert(lines[at].1 <= bound);
        }
    }
}

impl View for Demand {
    type V = Seq<(Seq<char>, nat)>;

    closed spec fn view(&self) -> Seq<(Seq<char>, nat)> {
        self.entries@.map_values(|e: DemandEntry| e@)
    }
}

impl Demand {
    /// Validity: distinct identifiers, each with a quantity within
    /// `u32::MAX`.
    pub open spec fn wf(&self) -> bool {
        &&& distinct_identifiers(self@)
        &&& lines_within(self@, u32::MAX as nat)
    }

    /// A request without lines.
    pub fn new() -> (demand: Demand)
        ensures
            demand.wf(),
            demand@ == Seq::<(Seq<char>, nat)>::empty(),
    {
        let demand = Demand { entries: Vec::new() };
        proof {
            assert(demand@ =~= Seq::<(Seq<char>, nat)>::empty());
        }
        demand
    }

    /// Number of lines.
    pub fn len(&self) -> (n: usize)
        ensures
            n == self@.len(),
    {
        self.entries.len()
    }

    /// The line at `index`.
    pub fn entry(&self, index: usize) -> (line: &DemandEntry)
        requires
            index < self@.len(),
        ensures
            line@ == self@[index as int],
    {
        &self.entries[index]
    }

    /// All quantities together.
    pub fn total(&self) -> (total: u128)
        ensures
            total == total_quantity(self@),
    {
        let mut total: u128 = 0;
        let mut i: usize = 0;
        proof {
            assert(self@.take(0) =~= Seq::<(Seq<char>, nat)>::empty());
        }
        while i < self.entries.len()
            invariant
                i <= self.entries.len(),
                total == total_quantity(self@.take(i as int)),
                total <= i * 0xFFFF_FFFF,
            decreases self.entries.len() - i,
        {
            proof {
                assert(self@.take(i + 1).drop_last() =~= self@.take(i as int));
                assert(self@.take(i + 1).last() == self.entries[i as int]@);
                assert((i + 1) * 0xFFFF_FFFF == i * 0xFFFF_FFFF + 0xFFFF_FFFF) by (nonlinear_arith);
                assert(i * 0xFFFF_FFFF <= 0xFFFF_FFFF_FFFF_FFFF * 0xFFFF_FFFF) by (nonlinear_arith)
                    requires
                        i <= 0xFFFF_FFFF_FFFF_FFFF,
                ;
            }
            total = total + self.entries[i].quantity as u128;
            i = i + 1;
        }
        proof {
            assert(self@.take(i as int) =~= self@);
        }
        total
    }

    /// The quantity asked for `identifier`; 0 if it was never named.
    pub fn quantity_of(&self, identifier: &str) -> (quantity: u32)
        requires
            self.wf(),
        ensures
            quantity == quantity_for(self@, identifier@),
    {
        let mut i: usize = 0;
        while i < self.entries.len()
            invariant
                self.wf(),
                i <= self.entries.len(),
                forall|j: int| 0 <= j < i ==> (#[trigger] self@[j]).0 != identifier@,
            decreases self.entries.len() - i,
        {
            if same_text(self.entries[i].identifier.as_str(), identifier) {
                proof {
                    assert(self@[i as int].0 == identifier@);
                    let at = line_of(self@, identifier@);
                    assert(at == i);
                }
                return self.entries[i].quantity;
            }
            i = i + 1;
        }
        0
    }

    /// Asks for `quantity` more of `identifier`.
    ///
    /// Returns whether the request could take them; it is left unchanged if
    /// the quantity of the identifier would exceed `u32::MAX`.
    pub fn add(&mut self, identifier: String, quantity: u32) -> (added: bool)
        requires
            old(self).wf(),
        ensures
            final(self).wf(),
            added == (quantity_for(old(self)@, identifier@) + quantity <= u32::MAX),
            added ==> final(self)@ == add_line(old(self)@, identifier@, quantity as nat),
            !added ==> final(self)@ == old(self)@,
    {
        let mut i: usize = 0;
        while i < self.entries.len()
            invariant
                *self == *old(self),
                self.wf(),
                i <= self.entries.len(),
                forall|j: int| 0 <= j < i ==> (#[trigger] self@[j]).0 != identifier@,
            decreases self.entries.len() - i,
        {
            if self.entries[i].identifier == identifier {
                proof {
                    assert(self@[i as int].0 == identifier@);
                    assert(line_of(self@, identifier@) == i);
                    lemma_add_line(self@, identifier@, quantity as nat);
                }
                if quantity > u32::MAX - self.entries[i].quantity {
                    return false;
                }
                let sum: u32 = self.entries[i].quantity + quantity;
                self.entries.set(i, DemandEntry { identifier, quantity: sum });
                proof {
                    assert(self@ =~= add_line(old(self)@, identifier@, quantity as nat));
                    assert forall|j: int| 0 <= j < self@.len() implies (#[trigger] self@[j]).1
                        <= u32::MAX by {
                        if j != i {
                            assert(self@[j] == old(self)@[j]);
                        }
                    }
                }
                return true;
            }
            i = i + 1;
        }
        proof {
            assert(!has_line(self@, identifier@));
            lemma_add_line(self@, identifier@, quantity as nat);
        }
        self.entries.push(DemandEntry { identifier, quantity });
        proof {
            assert(self@ =~= add_line(old(self)@, identifier@, quantity as nat));
            assert forall|j: int| 0 <= j < self@.len() implies (#[trigger] self@[j]).1
                <= u32::MAX by {
                if j < old(self)@.len() {
                    assert(self@[j] == old(self)@[j]);
                }
            }
        }
        true
    }
}

/// Whether a list of tokens makes a request: the quantity of every token can
/// be read, and for no identifier do the quantities of the tokens naming it
/// exceed `u32::MAX` together.
pub open spec fn accepted(tokens: Seq<Seq<char>>) -> bool {
    &&& forall|k: int| 0 <= k < tokens.len() ==> token_readable(#[trigger] tokens[k])
    &&& forall|identifier: Seq<char>| quantity_asked(tokens, identifier) <= u32::MAX
}

/// Whether the token at `i` is the first with which the list stops making a
/// request.
pub open spec fn refused_at(tokens: Seq<Seq<char>>, i: int) -> bool {
    &&& 0 <= i < tokens.len()
    &&& accepted(tokens.take(i))
    &&& !accepted(tokens.take(i + 1))
}

/// The first tokens of an accepted list are accepted.
pub proof fn lemma_accepted_prefix(tokens: Seq<Seq<char>>, i: int)
    requires
        0 <= i <= tokens.len(),
        accepted(tokens),
    ensures
        accepted(tokens.take(i)),
{
    assert forall|k: int| 0 <= k < tokens.take(i).len() implies token_readable(
        #[trigger] tokens.take(i)[k],
    ) by {
        assert(tokens.take(i)[k] == tokens[k]);
    }
    assert forall|identifier: Seq<char>| quantity_asked(tokens.take(i), identifier)
        <= u32::MAX by {
        lemma_quantity_asked_grows(tokens, i, identifier);
    }
}

/// What reading `tokens` results in: the request they make, if they make
/// one; else an invalid quantity, with the first token with which they stop
/// making one.
pub open spec fn parse_outcome(tokens: Seq<Seq<char>>, outcome: Result<Demand, ParseError>) -> bool {
    match outcome {
        Ok(demand) => {
            &&& accepted(tokens)
            &&& demand.wf()
            &&& demand@ == requested(tokens)
        },
        Err(ParseError::InvalidQuantity(t)) => {
            &&& !accepted(tokens)
            &&& exists|i: int| refused_at(tokens, i) && t@ == tokens[i]
        },
        Err(ParseError::MalformedToken(_)) => false,
    }
}

/// Whether two results of reading tokens say the same.
pub open spec fn same_outcome(
    first: Result<Demand, ParseError>,
    second: Result<Demand, ParseError>,
) -> bool {
    match (first, second) {
        (Ok(a), Ok(b)) => a@ == b@,
        (Err(ParseError::InvalidQuantity(s)), Err(ParseError::InvalidQuantity(t))) => s@ == t@,
        (Err(ParseError::MalformedToken(s)), Err(ParseError::MalformedToken(t))) => s@ == t@,
        _ => false,
    }
}

/// Reads the tokens of an invocation into a request.
///
/// Each token names an identifier and a quantity (see [`crate::token`]);
/// quantities of tokens that name the same identifier are summed.  The whole
/// list is refused with the first token whose quantity cannot be read or
/// brings the quantity of its identifier beyond `u32::MAX`.
pub fn parse_user_input(inputs: &[String]) -> (outcome: Result<Demand, ParseError>)
    ensures
        parse_outcome(token_views(inputs@), outcome),
        outcome matches Ok(demand) ==> forall|identifier: Seq<char>|
            quantity_for(demand@, identifier) == quantity_asked(token_views(inputs@), identifier),
{
    let ghost tokens = token_views(inputs@);
    let mut demand = Demand::new();
    let mut i: usize = 0;
    proof {
        assert(tokens.take(0) =~= Seq::<Seq<char>>::empty());
    }
    while i < inputs.len()
        invariant
            i <= inputs.len(),
            tokens == token_views(inputs@),
            demand.wf(),
            demand@ == requested(tokens.take(i as int)),
            accepted(tokens.take(i as int)),
        decreases inputs.len() - i,
    {
        let ghost before = tokens.take(i as int);
        let ghost after = tokens.take(i + 1);
        let ghost named = crate::token::token_identifier(tokens[i as int]);
        proof {
            assert(after.drop_last() =~= before);
            assert(after.last() == inputs[i as int]@);
            assert(after[i as int] == tokens[i as int]);
            lemma_requested_sums(before);
            lemma_requested_sums(after);
        }
        let fits = match parse_token(inputs[i].as_str()) {
            Ok((identifier, quantity)) => demand.add(identifier, quantity),
            Err(_) => false,
        };
        if !fits {
            proof {
                assert(!accepted(after)) by {
                    if token_readable(tokens[i as int]) {
                        assert(quantity_asked(after, named) > u32::MAX);
                    }
                }
                assert(refused_at(tokens, i as int));
                if accepted(tokens) {
                    lemma_accepted_prefix(tokens, i + 1);
                }
            }
            return Err(ParseError::InvalidQuantity(inputs[i].clone()));
        }
        proof {
            lemma_lines_within(demand@, u32::MAX as nat);
            assert forall|k: int| 0 <= k < after.len() implies token_readable(
                #[trigger] after[k],
            ) by {
                if k < i {
                    assert(after[k] == before[k]);
                }
            }
            assert forall|identifier: Seq<char>| quantity_asked(after, identifier)
                <= u32::MAX by {
                assert(quantity_for(demand@, identifier) == quantity_asked(after, identifier));
            }
        }
        i = i + 1;
    }
    proof {
        assert(tokens.take(i as int) =~= tokens);
        lemma_requested_sums(tokens);
    }
    Ok(demand)
}

/// Reading is repeatable: any two results of reading the same tokens hold
/// the same request, or refuse the same token for the same reason.
pub proof fn lemma_parse_repeatable(
    tokens: Seq<Seq<char>>,
    first: Result<Demand, ParseError>,
    second: Result<Demand, ParseError>,
)
    requires
        parse_outcome(tokens, first),
        parse_outcome(tokens, second),
    ensures
        same_outcome(first, second),
{
    if first is Err && second is Err {
        let i = choose|i: int| refused_at(tokens, i) && first->Err_0.refused() == tokens[i];
        let j = choose|j: int| refused_at(tokens, j) && second->Err_0.refused() == tokens[j];
        if i < j {
            lemma_accepted_prefix(tokens.take(j), i + 1);
            assert(tokens.take(j).take(i + 1) =~= tokens.take(i + 1));
        }
        if j < i {
            lemma_accepted_prefix(tokens.take(i), j + 1);
            assert(tokens.take(i).take(j + 1) =~= tokens.take(j + 1));
        }
    }
}

} // verus!

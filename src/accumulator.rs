//! The delta accumulator: reconciles a public ledger against an exchange's
//! secret set and sums the values of the ledger rows whose membership in the
//! secret set is proven.

use vstd::prelude::*;
use crate::entry::{MerkleTreeEntry, rows_view};
use crate::codec::{entry_bytes, serialize_pair};
use crate::merkle::{blocks_view, is_pow2, proves, verify_merkle_proof, MerkleTree, lemma_proof_round_trip};
use crate::position::{column_view, get_address_position, has_entry_row, has_address_row, first_entry_row};

verus! {

/// The rows holding address `a`, in order.
pub open spec fn rows_with_address(rows: Seq<(Seq<char>, i64)>, a: Seq<char>) -> Seq<(Seq<char>, i64)>
    decreases rows.len(),
{
    if rows.len() == 0 {
        Seq::empty()
    } else {
        let before = rows_with_address(rows.drop_last(), a);
        if rows.last().0 == a {
            before.push(rows.last())
        } else {
            before
        }
    }
}

/// The distinct addresses of the rows, in order of first appearance.
pub open spec fn address_keys(rows: Seq<(Seq<char>, i64)>) -> Seq<Seq<char>>
    decreases rows.len(),
{
    if rows.len() == 0 {
        Seq::empty()
    } else {
        let before = address_keys(rows.drop_last());
        if before.contains(rows.last().0) {
            before
        } else {
            before.push(rows.last().0)
        }
    }
}

/// The grouping of the rows by address: one (address, rows with that
/// address) pair per distinct address, in order of first appearance.
pub open spec fn groups_of(rows: Seq<(Seq<char>, i64)>, groups: Seq<(Seq<char>, Seq<(Seq<char>, i64)>)>) -> bool {
    let keys = address_keys(rows);
    &&& groups.len() == keys.len()
    &&& forall|g: int|
        0 <= g < groups.len() ==> (#[trigger] groups[g]).0 == keys[g] && groups[g].1
            == rows_with_address(rows, keys[g])
}

/// The view of a grouping.
pub open spec fn grouping_view(groups: Seq<(String, Vec<MerkleTreeEntry>)>) -> Seq<(Seq<char>, Seq<(Seq<char>, i64)>)> {
    groups.map_values(|g: (String, Vec<MerkleTreeEntry>)| (g.0@, rows_view(g.1@)))
}

/// The distinct addresses appear once each.
proof fn lemma_address_keys_distinct(rows: Seq<(Seq<char>, i64)>)
    ensures
        forall|a: int, b: int|
            0 <= a < b < address_keys(rows).len() ==> address_keys(rows)[a] != address_keys(rows)[b],
    decreases rows.len(),
{
    if rows.len() > 0 {
        let before = address_keys(rows.drop_last());
        lemma_address_keys_distinct(rows.drop_last());
        if !before.contains(rows.last().0) {
            assert forall|a: int| 0 <= a < before.len() implies before[a] != rows.last().0 by {
                if before[a] == rows.last().0 {
                    assert(before.contains(rows.last().0));
                }
            }
        }
    }
}

/// Holds the secret set's location for the exchange's backend.
#[derive(Debug)]
pub struct DeltaAccumulator {
    /// Path of the exchange's secret set.
    pub exchange_secrets_path: String,
}

impl DeltaAccumulator {
    /// An accumulator for the secret set stored at `exchange_path`.
    pub fn new(exchange_path: String) -> (r: DeltaAccumulator)
        ensures
            r.exchange_secrets_path@ == exchange_path@,
    {
        DeltaAccumulator { exchange_secrets_path: exchange_path }
    }

    /// The ledger entries whose address is `address`, in ledger order.
    pub fn get_all_matching_address_entries(
        &self,
        ledger_entries: &[MerkleTreeEntry],
        address: &str,
    ) -> (r: Vec<MerkleTreeEntry>)
        ensures
            rows_view(r@) == rows_with_address(rows_view(ledger_entries@), address@),
    {
        let target = address.to_owned();
        let ghost rows = rows_view(ledger_entries@);
        let mut found: Vec<MerkleTreeEntry> = Vec::new();
        let mut i: usize = 0;
        while i < ledger_entries.len()
            invariant
                rows == rows_view(ledger_entries@),
                target@ == address@,
                i <= ledger_entries@.len(),
                rows_view(found@) == rows_with_address(rows.take(i as int), address@),
            decreases ledger_entries@.len() - i,
        {
            let entry = &ledger_entries[i];
            proof {
                assert(rows.take(i + 1).drop_last() == rows.take(i as int));
                assert(rows.take(i + 1).last() == entry@);
            }
            if *entry.address_ref() == target {
                let ghost before = rows_view(found@);
                found.push(entry.clone());
                assert(rows_view(found@) =~= before.push(entry@));
            }
            i = i + 1;
        }
        assert(rows.take(ledger_entries@.len() as int) == rows);
        found
    }

    /// Groups the ledger entries by address: one (address, entries) pair per
    /// distinct address, in order of first appearance, each group keeping
    /// ledger order.
    pub fn precompute_matching_entries(&self, ledger_entries: &[MerkleTreeEntry]) -> (r: Vec<
        (String, Vec<MerkleTreeEntry>),
    >)
        ensures
            groups_of(rows_view(ledger_entries@), grouping_view(r@)),
    {
        let ghost rows = rows_view(ledger_entries@);
        let mut groups: Vec<(String, Vec<MerkleTreeEntry>)> = Vec::new();
        let mut i: usize = 0;
        while i < ledger_entries.len()
            invariant
                rows == rows_view(ledger_entries@),
                i <= ledger_entries@.len(),
                groups_of(rows.take(i as int), grouping_view(groups@)),
            decreases ledger_entries@.len() - i,
        {
            let entry = &ledger_entries[i];
            let ghost prefix = rows.take(i as int);
            let ghost next = rows.take(i + 1);
            let ghost keys = address_keys(prefix);
            proof {
                assert(next.drop_last() == prefix);
                assert(next.last() == entry@);
            }
            let mut g: usize = 0;
            while g < groups.len()
                invariant
                    groups_of(prefix, grouping_view(groups@)),
                    keys == address_keys(prefix),
                    keys.len() == groups@.len(),
                    g <= groups@.len(),
                    forall|h: int| 0 <= h < g ==> #[trigger] keys[h] != entry@.0,
                ensures
                    g <= groups@.len(),
                    g < groups@.len() ==> keys[g as int] == entry@.0,
                    forall|h: int| 0 <= h < g ==> #[trigger] keys[h] != entry@.0,
                decreases groups@.len() - g,
            {
                assert(grouping_view(groups@)[g as int].0 == groups@[g as int].0@);
                if groups[g].0 == *entry.address_ref() {
                    assert(keys[g as int] == entry@.0);
                    break;
                }
                g = g + 1;
            }
            let ghost old_view = grouping_view(groups@);
            let ghost old_groups = groups@;
            if g < groups.len() {
                assert(grouping_view(groups@)[g as int].0 == groups@[g as int].0@);
                assert(keys[g as int] == entry@.0);
                assert(keys.contains(entry@.0));
                let (key, mut members) = groups.remove(g);
                let ghost old_members = rows_view(members@);
                members.push(entry.clone());
                assert(rows_view(members@) =~= old_members.push(entry@));
                groups.insert(g, (key, members));
                proof {
                    assert(groups@ =~= old_groups.update(g as int, (key, members)));
                    assert(address_keys(next) == keys);
                    assert(old_view[g as int].1 == old_members);
                    assert(rows_with_address(next, keys[g as int]) == old_members.push(entry@));
                    assert forall|h: int| 0 <= h < grouping_view(groups@).len() implies ({
                        let gv = #[trigger] grouping_view(groups@)[h];
                        gv.0 == address_keys(next)[h] && gv.1 == rows_with_address(next, address_keys(next)[h])
                    }) by {
                        lemma_address_keys_distinct(prefix);
                        if h != g {
                            assert(grouping_view(groups@)[h] == old_view[h]);
                            assert(keys[h] != keys[g as int]);
                        }
                    }
                }
            } else {
                assert(!keys.contains(entry@.0));
                groups.push((entry.entry_address(), vec![entry.clone()]));
                proof {
                    assert(address_keys(next) == keys.push(entry@.0));
                    assert forall|h: int| 0 <= h < grouping_view(groups@).len() implies ({
                        let gv = #[trigger] grouping_view(groups@)[h];
                        gv.0 == address_keys(next)[h] && gv.1 == rows_with_address(next, address_keys(next)[h])
                    }) by {
                        if h < keys.len() {
                            assert(grouping_view(groups@)[h] == old_view[h]);
                        } else {
                            lemma_no_rows_for_absent_key(prefix, entry@.0);
                            assert(grouping_view(groups@)[h].1 =~= Seq::<(Seq<char>, i64)>::empty().push(entry@));
                        }
                    }
                }
            }
            i = i + 1;
        }
        assert(rows.take(ledger_entries@.len() as int) == rows);
        groups
    }
}

/// An address that is not among the keys has no rows.
proof fn lemma_no_rows_for_absent_key(rows: Seq<(Seq<char>, i64)>, a: Seq<char>)
    requires
        !address_keys(rows).contains(a),
    ensures
        rows_with_address(rows, a) == Seq::<(Seq<char>, i64)>::empty(),
    decreases rows.len(),
{
    if rows.len() > 0 {
        let before = address_keys(rows.drop_last());
        if before.contains(a) {
            let k = choose|k: int| 0 <= k < before.len() && before[k] == a;
            assert(address_keys(rows).contains(a)) by {
                if !before.contains(rows.last().0) {
                    assert(address_keys(rows)[k] == a);
                }
            }
        }
        if !before.contains(rows.last().0) {
            assert(address_keys(rows).last() == rows.last().0);
        }
        lemma_no_rows_for_absent_key(rows.drop_last(), a);
    }
}

/// Every row holds address `a`.
pub open spec fn all_at_address(rows: Seq<(Seq<char>, i64)>, a: Seq<char>) -> bool {
    forall|i: int| 0 <= i < rows.len() ==> (#[trigger] rows[i]).0 == a
}

/// The rows that the secret set holds (same address and value), in order.
pub open spec fn rows_in_secret(
    rows: Seq<(Seq<char>, i64)>,
    addresses: Seq<Seq<char>>,
    values: Seq<i64>,
) -> Seq<(Seq<char>, i64)>
    decreases rows.len(),
{
    if rows.len() == 0 {
        Seq::empty()
    } else {
        let before = rows_in_secret(rows.drop_last(), addresses, values);
        if has_entry_row(addresses, values, rows.last().0, rows.last().1) {
            before.push(rows.last())
        } else {
            before
        }
    }
}

/// Group after group, the rows of each that the secret set holds.
pub open spec fn candidates_over(
    groups: Seq<(Seq<char>, Seq<(Seq<char>, i64)>)>,
    addresses: Seq<Seq<char>>,
    values: Seq<i64>,
) -> Seq<(Seq<char>, i64)>
    decreases groups.len(),
{
    if groups.len() == 0 {
        Seq::empty()
    } else {
        candidates_over(groups.drop_last(), addresses, values) + rows_in_secret(
            groups.last().1,
            addresses,
            values,
        )
    }
}

/// The ledger grouped by address, in order of first appearance.
pub open spec fn ledger_groups(ledger: Seq<(Seq<char>, i64)>) -> Seq<(Seq<char>, Seq<(Seq<char>, i64)>)> {
    let keys = address_keys(ledger);
    Seq::new(keys.len(), |g: int| (keys[g], rows_with_address(ledger, keys[g])))
}

/// The ledger rows whose membership is queried: address group after
/// address group, each row whose address and value the secret set holds.
pub open spec fn candidate_rows(
    ledger: Seq<(Seq<char>, i64)>,
    addresses: Seq<Seq<char>>,
    values: Seq<i64>,
) -> Seq<(Seq<char>, i64)> {
    candidates_over(ledger_groups(ledger), addresses, values)
}

/// The rows of a list of (entry, position) candidates.
pub open spec fn candidates_view(c: Seq<(MerkleTreeEntry, usize)>) -> Seq<(Seq<char>, i64)> {
    c.map_values(|x: (MerkleTreeEntry, usize)| x.0@)
}

proof fn lemma_rows_with_address_at(rows: Seq<(Seq<char>, i64)>, a: Seq<char>)
    ensures
        all_at_address(rows_with_address(rows, a), a),
    decreases rows.len(),
{
    if rows.len() > 0 {
        lemma_rows_with_address_at(rows.drop_last(), a);
    }
}

proof fn lemma_absent_address_no_rows(
    rows: Seq<(Seq<char>, i64)>,
    a: Seq<char>,
    addresses: Seq<Seq<char>>,
    values: Seq<i64>,
)
    requires
        all_at_address(rows, a),
        !has_address_row(addresses, a),
    ensures
        rows_in_secret(rows, addresses, values) == Seq::<(Seq<char>, i64)>::empty(),
    decreases rows.len(),
{
    if rows.len() > 0 {
        lemma_absent_address_no_rows(rows.drop_last(), a, addresses, values);
        if has_entry_row(addresses, values, rows.last().0, rows.last().1) {
            let i = choose|i: int|
                0 <= i < addresses.len() && addresses[i] == rows.last().0 && values[i]
                    == rows.last().1;
            assert(rows[rows.len() - 1].0 == a);
        }
    }
}

/// For each group, the rows the secret set holds, each with the secret-set
/// row where its address and value first appear.
fn plan_candidates(
    groups: &Vec<(String, Vec<MerkleTreeEntry>)>,
    addresses: &Vec<String>,
    values: &Vec<i64>,
) -> (r: Vec<(MerkleTreeEntry, usize)>)
    requires
        addresses@.len() == values@.len(),
        forall|g: int|
            0 <= g < groups@.len() ==> all_at_address(
                #[trigger] grouping_view(groups@)[g].1,
                grouping_view(groups@)[g].0,
            ),
    ensures
        candidates_view(r@) == candidates_over(grouping_view(groups@), column_view(addresses@), values@),
        forall|i: int|
            0 <= i < r@.len() ==> first_entry_row(
                column_view(addresses@),
                values@,
                (#[trigger] r@[i]).0@.0,
                r@[i].0@.1,
                r@[i].1 as int,
            ),
{
    let ghost cols = column_view(addresses@);
    let ghost gv = grouping_view(groups@);
    let mut out: Vec<(MerkleTreeEntry, usize)> = Vec::new();
    let mut g: usize = 0;
    while g < groups.len()
        invariant
            addresses@.len() == values@.len(),
            cols == column_view(addresses@),
            gv == grouping_view(groups@),
            forall|h: int| 0 <= h < groups@.len() ==> all_at_address(#[trigger] gv[h].1, gv[h].0),
            g <= groups@.len(),
            candidates_view(out@) == candidates_over(gv.take(g as int), cols, values@),
            forall|i: int|
                0 <= i < out@.len() ==> first_entry_row(
                    cols,
                    values@,
                    (#[trigger] out@[i]).0@.0,
                    out@[i].0@.1,
                    out@[i].1 as int,
                ),
        decreases groups@.len() - g,
    {
        let group = &groups[g];
        let ghost grows = gv[g as int].1;
        proof {
            assert(gv.take(g + 1).drop_last() == gv.take(g as int));
            assert(gv.take(g + 1).last() == gv[g as int]);
            assert(gv[g as int].0 == group.0@);
            assert(grows == rows_view(group.1@));
        }
        match get_address_position(addresses, values, group.0.clone(), None) {
            Err(_) => {
                proof {
                    lemma_absent_address_no_rows(grows, gv[g as int].0, cols, values@);
                    assert(candidates_over(gv.take(g + 1), cols, values@) =~= candidates_over(
                        gv.take(g as int),
                        cols,
                        values@,
                    ));
                }
            },
            Ok(_) => {
                let ghost base = candidates_view(out@);
                let mut j: usize = 0;
                while j < group.1.len()
                    invariant
                        addresses@.len() == values@.len(),
                        cols == column_view(addresses@),
                        grows == rows_view(group.1@),
                        j <= group.1@.len(),
                        candidates_view(out@) == base + rows_in_secret(grows.take(j as int), cols, values@),
                        forall|i: int|
                            0 <= i < out@.len() ==> first_entry_row(
                                cols,
                                values@,
                                (#[trigger] out@[i]).0@.0,
                                out@[i].0@.1,
                                out@[i].1 as int,
                            ),
                    decreases group.1@.len() - j,
                {
                    let entry = &group.1[j];
                    proof {
                        assert(grows.take(j + 1).drop_last() == grows.take(j as int));
                        assert(grows.take(j + 1).last() == entry@);
                    }
                    let found = get_address_position(
                        addresses,
                        values,
                        entry.entry_address(),
                        Some(entry.entry_value()),
                    );
                    match found {
                        Ok(position) => {
                            assert(has_entry_row(cols, values@, entry@.0, entry@.1));
                            let ghost before = out@;
                            out.push((entry.clone(), position));
                            assert(candidates_view(out@) =~= candidates_view(before).push(entry@));
                        },
                        Err(_) => {},
                    }
                    j = j + 1;
                }
                proof {
                    assert(grows.take(grows.len() as int) == grows);
                }
            },
        }
        g = g + 1;
    }
    assert(gv.take(gv.len() as int) == gv);
    out
}

/// What the backend concluded about one entry.
#[derive(Debug, Clone, Copy, PartialEq, Eq, Structural)]
pub enum Outcome {
    /// Membership was proven.
    Member,
    /// Membership was refuted.
    NotMember,
    /// No conclusion for this entry (it could not be located or proven).
    Unproven,
}

/// Why a membership query gave no answer.
#[derive(Debug, Clone, Copy, PartialEq, Eq, Structural)]
pub enum ProofError {
    /// This entry could not be proven either way.
    Failed,
    /// The backend could not be reached at all.
    Unavailable,
}

/// Why an aggregation gave no total.
#[derive(Debug, Clone, Copy, PartialEq, Eq, Structural)]
pub enum AggregateError {
    /// The membership backend could not be reached.
    BackendUnavailable,
    /// The total does not fit in an `i64`.
    Overflow,
    /// The secret set cannot form a Merkle tree (its size is not a power of two).
    InvalidSecretSet,
}

/// The answer of a membership query: whether the element belongs to the set.
#[derive(Debug, Clone, Copy, PartialEq, Eq, Structural)]
pub struct MembershipProof {
    is_member: bool,
}

impl MembershipProof {
    /// A proof outcome.
    pub fn new(is_member: bool) -> (r: MembershipProof)
        ensures
            r.member() == is_member,
    {
        MembershipProof { is_member }
    }

    /// Whether membership holds.
    pub closed spec fn member(&self) -> bool {
        self.is_member
    }

    /// Whether membership holds.
    pub fn is_member(&self) -> (r: bool)
        ensures
            r == self.member(),
    {
        self.is_member
    }
}

/// The cached outcome that a backend reply becomes.
pub open spec fn outcome_of(reply: Result<MembershipProof, ProofError>) -> Outcome {
    match reply {
        Ok(p) => if p.member() {
            Outcome::Member
        } else {
            Outcome::NotMember
        },
        Err(_) => Outcome::Unproven,
    }
}

/// What a row adds to the total: its value when proven a member, else nothing.
pub open spec fn credited(outcome: Outcome, value: i64) -> int {
    if outcome == Outcome::Member {
        value as int
    } else {
        0
    }
}

/// The sum over the rows of what each adds given the outcomes.
pub open spec fn total_of(rows: Seq<(Seq<char>, i64)>, outcomes: Map<(Seq<char>, i64), Outcome>) -> int
    decreases rows.len(),
{
    if rows.len() == 0 {
        0
    } else {
        total_of(rows.drop_last(), outcomes) + credited(outcomes[rows.last()], rows.last().1)
    }
}

/// The sum of the rows' values.
pub open spec fn sum_values(rows: Seq<(Seq<char>, i64)>) -> int
    decreases rows.len(),
{
    if rows.len() == 0 {
        0
    } else {
        sum_values(rows.drop_last()) + rows.last().1
    }
}

/// The map that a list of (entry, outcome) pairs stands for.
pub open spec fn cache_map(cache: Seq<(MerkleTreeEntry, Outcome)>) -> Map<(Seq<char>, i64), Outcome>
    decreases cache.len(),
{
    if cache.len() == 0 {
        Map::empty()
    } else {
        cache_map(cache.drop_last()).insert(cache.last().0@, cache.last().1)
    }
}

/// The next move of an aggregation.
#[derive(Debug)]
pub enum Action {
    /// Ask the backend about this entry, at this secret-set row.
    Prove(MerkleTreeEntry, usize),
    /// All candidates are settled: this is the total.
    Finish(i64),
    /// The aggregation cannot complete.
    Abort(AggregateError),
}

/// An aggregation in progress: the candidate rows with their secret-set
/// positions, how many are settled, the proof cache (one outcome per
/// distinct entry), and the running total of the settled rows.
#[derive(Debug)]
pub struct Aggregation {
    candidates: Vec<(MerkleTreeEntry, usize)>,
    settled: usize,
    cache: Vec<(MerkleTreeEntry, Outcome)>,
    total: i128,
    unavailable: bool,
}

/// `|total_of(rows)|` is at most `2^63` per row.
proof fn lemma_total_bound(rows: Seq<(Seq<char>, i64)>, outcomes: Map<(Seq<char>, i64), Outcome>)
    ensures
        -(rows.len() * 0x8000_0000_0000_0000) <= total_of(rows, outcomes) <= rows.len()
            * 0x8000_0000_0000_0000,
    decreases rows.len(),
{
    if rows.len() > 0 {
        lemma_total_bound(rows.drop_last(), outcomes);
    }
}

/// Adding an outcome for an entry outside the rows leaves their total as is.
proof fn lemma_total_insert_other(
    rows: Seq<(Seq<char>, i64)>,
    outcomes: Map<(Seq<char>, i64), Outcome>,
    key: (Seq<char>, i64),
    o: Outcome,
)
    requires
        forall|i: int| 0 <= i < rows.len() ==> #[trigger] rows[i] != key,
    ensures
        total_of(rows, outcomes.insert(key, o)) == total_of(rows, outcomes),
    decreases rows.len(),
{
    if rows.len() > 0 {
        lemma_total_insert_other(rows.drop_last(), outcomes, key, o);
        assert(rows[rows.len() - 1] != key);
    }
}

/// When every row is a proven member, the total is the sum of the values.
proof fn lemma_total_all_members(rows: Seq<(Seq<char>, i64)>, outcomes: Map<(Seq<char>, i64), Outcome>)
    requires
        forall|i: int| 0 <= i < rows.len() ==> outcomes[#[trigger] rows[i]] == Outcome::Member,
    ensures
        total_of(rows, outcomes) == sum_values(rows),
    decreases rows.len(),
{
    if rows.len() > 0 {
        lemma_total_all_members(rows.drop_last(), outcomes);
        assert(outcomes[rows[rows.len() - 1]] == Outcome::Member);
    }
}

/// With distinct keys, the map holds each listed pair.
proof fn lemma_cache_map_lookup(cache: Seq<(MerkleTreeEntry, Outcome)>, i: int)
    requires
        0 <= i < cache.len(),
        forall|a: int, b: int| 0 <= a < b < cache.len() ==> cache[a].0@ != cache[b].0@,
    ensures
        cache_map(cache).contains_key(cache[i].0@),
        cache_map(cache)[cache[i].0@] == cache[i].1,
    decreases cache.len(),
{
    if i < cache.len() - 1 {
        lemma_cache_map_lookup(cache.drop_last(), i);
    }
}

/// The map's keys are exactly the listed entries.
proof fn lemma_cache_map_keys(cache: Seq<(MerkleTreeEntry, Outcome)>, k: (Seq<char>, i64))
    ensures
        cache_map(cache).contains_key(k) <==> exists|i: int| 0 <= i < cache.len() && cache[i].0@ == k,
    decreases cache.len(),
{
    if cache.len() > 0 {
        lemma_cache_map_keys(cache.drop_last(), k);
        if cache_map(cache.drop_last()).contains_key(k) {
            let i = choose|i: int| 0 <= i < cache.len() - 1 && cache.drop_last()[i].0@ == k;
            assert(cache[i].0@ == k);
        }
        if exists|i: int| 0 <= i < cache.len() && cache[i].0@ == k {
            let i = choose|i: int| 0 <= i < cache.len() && cache[i].0@ == k;
            if i < cache.len() - 1 {
                assert(cache.drop_last()[i].0@ == k);
            }
        }
    }
}

impl Aggregation {
    /// The candidate rows, in the order they are settled.
    pub closed spec fn rows(&self) -> Seq<(Seq<char>, i64)> {
        candidates_view(self.candidates@)
    }

    /// The secret-set position of candidate `i`.
    pub closed spec fn position(&self, i: int) -> usize {
        self.candidates@[i].1
    }

    /// How many candidates are settled.
    pub closed spec fn settled_count(&self) -> nat {
        self.settled as nat
    }

    /// The proof cache: the outcome recorded for each entry queried so far.
    pub closed spec fn outcomes(&self) -> Map<(Seq<char>, i64), Outcome> {
        cache_map(self.cache@)
    }

    /// Whether the backend was reported unreachable.
    pub closed spec fn backend_lost(&self) -> bool {
        self.unavailable
    }

    /// The aggregation's invariant: the settled rows all have an outcome and
    /// the running total is theirs.
    pub closed spec fn wf(&self) -> bool {
        let rows = self.rows();
        &&& self.settled <= self.candidates@.len() <= usize::MAX
        &&& forall|i: int| 0 <= i < self.settled ==> self.outcomes().contains_key(#[trigger] rows[i])
        &&& self.total as int == total_of(rows.take(self.settled as int), self.outcomes())
        &&& forall|a: int, b: int|
            0 <= a < b < self.cache@.len() ==> self.cache@[a].0@ != self.cache@[b].0@
    }

    /// The recorded outcome for an entry, if it was queried.
    fn cached(&self, entry: &MerkleTreeEntry) -> (r: Option<Outcome>)
        requires
            self.wf(),
        ensures
            match r {
                Some(o) => self.outcomes().contains_key(entry@) && self.outcomes()[entry@] == o,
                None => !self.outcomes().contains_key(entry@),
            },
    {
        let mut i: usize = 0;
        while i < self.cache.len()
            invariant
                self.wf(),
                i <= self.cache@.len(),
                forall|j: int| 0 <= j < i ==> (#[trigger] self.cache@[j]).0@ != entry@,
            decreases self.cache@.len() - i,
        {
            if self.cache[i].0 == *entry {
                proof {
                    lemma_cache_map_lookup(self.cache@, i as int);
                }
                return Some(self.cache[i].1);
            }
            i = i + 1;
        }
        proof {
            lemma_cache_map_keys(self.cache@, entry@);
        }
        None
    }

    /// Settles candidates from the cache as far as it goes, then says what
    /// to do next: query the backend about the first uncached candidate,
    /// or finish with the total once all are settled.
    pub fn next_action(&mut self) -> (r: Action)
        requires
            old(self).wf(),
        ensures
            final(self).wf(),
            final(self).rows() == old(self).rows(),
            forall|i: int| 0 <= i < old(self).rows().len() ==> final(self).position(i) == old(self).position(i),
            final(self).outcomes() == old(self).outcomes(),
            final(self).backend_lost() == old(self).backend_lost(),
            final(self).settled_count() >= old(self).settled_count(),
            match r {
                Action::Prove(e, p) => !final(self).backend_lost() && final(self).settled_count()
                    < final(self).rows().len() && e@ == final(self).rows()[final(self).settled_count() as int]
                    && p == final(self).position(final(self).settled_count() as int)
                    && !final(self).outcomes().contains_key(e@),
                Action::Finish(t) => !final(self).backend_lost() && final(self).settled_count()
                    == final(self).rows().len() && t == total_of(final(self).rows(), final(self).outcomes()),
                Action::Abort(AggregateError::BackendUnavailable) => final(self).backend_lost(),
                Action::Abort(AggregateError::Overflow) => !final(self).backend_lost()
                    && final(self).settled_count() == final(self).rows().len() && !(i64::MIN <= total_of(
                    final(self).rows(),
                    final(self).outcomes(),
                ) <= i64::MAX),
                Action::Abort(AggregateError::InvalidSecretSet) => false,
            },
    {
        if self.unavailable {
            return Action::Abort(AggregateError::BackendUnavailable);
        }
        while self.settled < self.candidates.len()
            invariant
                self.wf(),
                !self.unavailable,
                self.unavailable == old(self).unavailable,
                self.candidates@ == old(self).candidates@,
                self.cache@ == old(self).cache@,
                self.settled >= old(self).settled,
            decreases self.candidates@.len() - self.settled,
        {
            let entry = &self.candidates[self.settled].0;
            match self.cached(entry) {
                None => {
                    return Action::Prove(entry.clone(), self.candidates[self.settled].1);
                },
                Some(outcome) => {
                    let ghost rows = self.rows();
                    let ghost k = self.settled as int;
                    proof {
                        assert(rows[k] == entry@);
                        assert(rows.take(k + 1).drop_last() == rows.take(k));
                        assert(rows.take(k + 1).last() == rows[k]);
                        lemma_total_bound(rows.take(k), self.outcomes());
                        assert(k * 0x8000_0000_0000_0000 <= 0xffff_ffff_ffff_ffff * 0x8000_0000_0000_0000)
                            by (nonlinear_arith)
                            requires
                                0 <= k <= 0xffff_ffff_ffff_ffff,
                        ;
                    }
                    if outcome == Outcome::Member {
                        self.total = self.total + self.candidates[self.settled].0.entry_value() as i128;
                    }
                    self.settled = self.settled + 1;
                },
            }
        }
        let ghost rows = self.rows();
        assert(rows.take(rows.len() as int) == rows);
        if self.total < i64::MIN as i128 || self.total > i64::MAX as i128 {
            Action::Abort(AggregateError::Overflow)
        } else {
            Action::Finish(self.total as i64)
        }
    }

    /// Records the backend's reply about the candidate that `next_action`
    /// asked for: caches its outcome and settles that candidate. A reply
    /// that the backend is unreachable settles nothing and stops the
    /// aggregation.
    pub fn record(&mut self, reply: Result<MembershipProof, ProofError>)
        requires
            old(self).wf(),
            !old(self).backend_lost(),
            old(self).settled_count() < old(self).rows().len(),
            !old(self).outcomes().contains_key(old(self).rows()[old(self).settled_count() as int]),
        ensures
            final(self).wf(),
            final(self).rows() == old(self).rows(),
            forall|i: int| 0 <= i < old(self).rows().len() ==> final(self).position(i) == old(self).position(i),
            reply == Err::<MembershipProof, ProofError>(ProofError::Unavailable) ==> final(self).backend_lost()
                && final(self).outcomes() == old(self).outcomes() && final(self).settled_count()
                == old(self).settled_count(),
            reply != Err::<MembershipProof, ProofError>(ProofError::Unavailable) ==> !final(self).backend_lost()
                && final(self).outcomes() == old(self).outcomes().insert(
                old(self).rows()[old(self).settled_count() as int],
                outcome_of(reply),
            ) && final(self).settled_count() == old(self).settled_count() + 1,
    {
        let outcome = match reply {
            Err(ProofError::Unavailable) => {
                self.unavailable = true;
                return;
            },
            Err(ProofError::Failed) => Outcome::Unproven,
            Ok(p) => if p.is_member() {
                Outcome::Member
            } else {
                Outcome::NotMember
            },
        };
        let ghost rows = self.rows();
        let ghost k = self.settled as int;
        let ghost old_map = self.outcomes();
        let entry = self.candidates[self.settled].0.clone();
        let value = entry.entry_value();
        proof {
            assert(entry@ == rows[k]);
            assert forall|a: int| 0 <= a < self.cache@.len() implies self.cache@[a].0@ != entry@ by {
                lemma_cache_map_keys(self.cache@, entry@);
            }
        }
        self.cache.push((entry, outcome));
        proof {
            assert(self.cache@.drop_last() == old(self).cache@);
            let new_map = self.outcomes();
            assert(new_map == old_map.insert(rows[k], outcome));
            assert forall|i: int| 0 <= i < k implies #[trigger] rows.take(k)[i] != rows[k] by {
                assert(old_map.contains_key(rows[i]));
            }
            lemma_total_insert_other(rows.take(k), old_map, rows[k], outcome);
            assert(rows.take(k + 1).drop_last() == rows.take(k));
            assert(rows.take(k + 1).last() == rows[k]);
            lemma_total_bound(rows.take(k), old_map);
            assert(k * 0x8000_0000_0000_0000 <= 0xffff_ffff_ffff_ffff * 0x8000_0000_0000_0000)
                by (nonlinear_arith)
                requires
                    0 <= k <= 0xffff_ffff_ffff_ffff,
            ;
        }
        if outcome == Outcome::Member {
            self.total = self.total + value as i128;
        }
        self.settled = self.settled + 1;
    }
}

impl DeltaAccumulator {
    /// Starts aggregating `ledger_entries` against the secret set given as
    /// two columns: groups the ledger by address, keeps the groups whose
    /// address the secret set holds, and within them the rows whose address
    /// and value it holds, each with its secret-set row.
    pub fn start_aggregation(
        &self,
        ledger_entries: &[MerkleTreeEntry],
        addresses: &Vec<String>,
        values: &Vec<i64>,
    ) -> (r: Aggregation)
        requires
            addresses@.len() == values@.len(),
        ensures
            r.wf(),
            r.rows() == candidate_rows(rows_view(ledger_entries@), column_view(addresses@), values@),
            forall|i: int|
                0 <= i < r.rows().len() ==> first_entry_row(
                    column_view(addresses@),
                    values@,
                    (#[trigger] r.rows()[i]).0,
                    r.rows()[i].1,
                    r.position(i) as int,
                ),
            r.settled_count() == 0,
            r.outcomes() == Map::<(Seq<char>, i64), Outcome>::empty(),
            !r.backend_lost(),
    {
        let groups = self.precompute_matching_entries(ledger_entries);
        let ghost rows = rows_view(ledger_entries@);
        proof {
            assert forall|g: int| 0 <= g < groups@.len() implies all_at_address(
                #[trigger] grouping_view(groups@)[g].1,
                grouping_view(groups@)[g].0,
            ) by {
                lemma_rows_with_address_at(rows, address_keys(rows)[g]);
            }
            assert(grouping_view(groups@) =~= ledger_groups(rows));
        }
        let candidates = plan_candidates(&groups, addresses, values);
        let count = candidates.len();
        assert(count == candidates@.len());
        let r = Aggregation {
            candidates,
            settled: 0,
            cache: Vec::new(),
            total: 0,
            unavailable: false,
        };
        proof {
            assert(r.rows().take(0) =~= Seq::<(Seq<char>, i64)>::empty());
            assert forall|i: int| 0 <= i < r.rows().len() implies first_entry_row(
                column_view(addresses@),
                values@,
                (#[trigger] r.rows()[i]).0,
                r.rows()[i].1,
                r.position(i) as int,
            ) by {
                assert(r.rows()[i] == candidates@[i].0@);
            }
        }
        r
    }
}

/// The secret-set rows serialized, one data block per row.
pub fn serialize_rows(addresses: &Vec<String>, values: &Vec<i64>) -> (r: Vec<Vec<u8>>)
    requires
        addresses@.len() == values@.len(),
    ensures
        r@.len() == addresses@.len(),
        forall|i: int| 0 <= i < r@.len() ==> (#[trigger] r@[i])@ == entry_bytes(addresses@[i]@, values@[i]),
{
    let mut blocks: Vec<Vec<u8>> = Vec::new();
    let mut i: usize = 0;
    while i < addresses.len()
        invariant
            addresses@.len() == values@.len(),
            i <= addresses@.len(),
            blocks@.len() == i,
            forall|j: int| 0 <= j < i ==> (#[trigger] blocks@[j])@ == entry_bytes(addresses@[j]@, values@[j]),
        decreases addresses@.len() - i,
    {
        blocks.push(serialize_pair(&addresses[i], values[i]));
        i = i + 1;
    }
    blocks
}

/// Proves or refutes membership of `entry` in the tree at leaf `position`:
/// generates that leaf's proof and checks it against the entry's bytes and
/// the root.
pub fn prove_member_in_tree(tree: &MerkleTree, entry: &MerkleTreeEntry, position: usize) -> (r: Result<
    MembershipProof,
    ProofError,
>)
    requires
        tree.wf(),
    ensures
        match r {
            Ok(p) => position < tree.leaf_count() && p.member() == proves(
                tree.proof_for(position as int),
                entry_bytes(entry@.0, entry@.1),
                tree.root(),
            ),
            Err(e) => position >= tree.leaf_count() && e == ProofError::Failed,
        },
{
    let data = entry.serialize_entry();
    match tree.get_merkle_proof_by_index(position) {
        Ok(proof) => {
            let root = tree.root_hash();
            Ok(MembershipProof::new(verify_merkle_proof(&proof, &data, &root)))
        },
        Err(_) => Err(ProofError::Failed),
    }
}

impl DeltaAccumulator {
    /// Aggregates the delta of `ledger_entries` against the secret set given
    /// as two columns, with a Merkle tree over the serialized secret rows as
    /// the membership backend. Each candidate row (see `start_aggregation`)
    /// is proven against its secret-set leaf, each distinct entry once, and
    /// the values of the proven rows are summed.
    pub fn aggregate(
        &self,
        ledger_entries: &[MerkleTreeEntry],
        addresses: &Vec<String>,
        values: &Vec<i64>,
    ) -> (r: Result<i64, AggregateError>)
        requires
            addresses@.len() == values@.len(),
        ensures
            ({
                let total = sum_values(
                    candidate_rows(rows_view(ledger_entries@), column_view(addresses@), values@),
                );
                match r {
                    Ok(t) => is_pow2(addresses@.len()) && t == total,
                    Err(AggregateError::InvalidSecretSet) => !is_pow2(addresses@.len()),
                    Err(AggregateError::Overflow) => is_pow2(addresses@.len()) && !(i64::MIN <= total
                        <= i64::MAX),
                    Err(AggregateError::BackendUnavailable) => false,
                }
            }),
    {
        let blocks = serialize_rows(addresses, values);
        let ghost bv = blocks_view(blocks@);
        let tree = match MerkleTree::construct(blocks.as_slice()) {
            Ok(t) => t,
            Err(_) => {
                return Err(AggregateError::InvalidSecretSet);
            },
        };
        let mut run = self.start_aggregation(ledger_entries, addresses, values);
        let ghost rows = run.rows();
        let ghost cols = column_view(addresses@);
        loop
            invariant
                addresses@.len() == values@.len(),
                cols == column_view(addresses@),
                bv == blocks_view(blocks@),
                blocks@.len() == addresses@.len(),
                forall|i: int| 0 <= i < blocks@.len() ==> (#[trigger] blocks@[i])@ == entry_bytes(addresses@[i]@, values@[i]),
                tree.built_from(bv),
                run.wf(),
                run.rows() == rows,
                rows == candidate_rows(rows_view(ledger_entries@), cols, values@),
                forall|i: int|
                    0 <= i < rows.len() ==> first_entry_row(
                        cols,
                        values@,
                        (#[trigger] rows[i]).0,
                        rows[i].1,
                        run.position(i) as int,
                    ),
                !run.backend_lost(),
                forall|k: (Seq<char>, i64)| #[trigger] run.outcomes().contains_key(k) ==> run.outcomes()[k]
                    == Outcome::Member,
            decreases rows.len() - run.settled_count(),
        {
            match run.next_action() {
                Action::Prove(entry, position) => {
                    let ghost k = run.settled_count() as int;
                    proof {
                        assert(first_entry_row(cols, values@, rows[k].0, rows[k].1, position as int));
                        assert(cols[position as int] == addresses@[position as int]@);
                        assert(bv[position as int] == entry_bytes(entry@.0, entry@.1));
                        lemma_proof_round_trip(&tree, bv, position as int);
                    }
                    let reply = prove_member_in_tree(&tree, &entry, position);
                    run.record(reply);
                },
                Action::Finish(total) => {
                    proof {
                        assert forall|i: int| 0 <= i < rows.len() implies run.outcomes()[#[trigger] rows[i]]
                            == Outcome::Member by {
                            assert(run.outcomes().contains_key(rows[i]));
                        }
                        lemma_total_all_members(rows, run.outcomes());
                    }
                    return Ok(total);
                },
                Action::Abort(e) => {
                    proof {
                        assert forall|i: int| 0 <= i < rows.len() implies run.outcomes()[#[trigger] rows[i]]
                            == Outcome::Member by {
                            assert(run.outcomes().contains_key(rows[i]));
                        }
                        lemma_total_all_members(rows, run.outcomes());
                    }
                    return Err(e);
                },
            }
        }
    }
}

} // verus!

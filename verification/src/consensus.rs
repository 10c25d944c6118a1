//! What the RPC endpoints agree on, and how they compare.
use crate::decimal::{append_decimal, decimal_text, law_decimal_text_reads_back};
use crate::order::{as_ints, as_positions, is_ranking, law_ranking_exists, rank_positions, ranking, ranks_before};
use crate::order::{law_ranked_keys_do_not_depend_on_the_order, lemma_mapped_values, ranked_keys};
use crate::order::law_ranking_lists_every_position;
use crate::rpc::{responses_of, RPCResponse, RPCResponseView};
use crate::share::Share;
use crate::tally::{
    is_most_common, law_highest_count_does_not_depend_on_the_order, law_occurrences_are_bounded, lemma_most_common, lemma_most_common_exists, most_common,
    law_occurrences_are_positions, occurrences,
};
use crate::time::Timestamp;
use vstd::prelude::*;

verus! {

/// The number of entries that a leaderboard shows.
pub const LEADERBOARD_SIZE: usize = 4;

/// One place on a leaderboard.
#[derive(Debug)]
pub struct LeaderboardEntry {
    pub nickname: String,
    pub value: u64,
    pub latency_ms: u128,
    pub timestamp: Timestamp,
}

/// A [`LeaderboardEntry`] over views.
pub struct LeaderboardView {
    pub nickname: Seq<char>,
    pub value: u64,
    pub latency_ms: u128,
    pub timestamp: u64,
}

impl View for LeaderboardEntry {
    type V = LeaderboardView;

    open spec fn view(&self) -> LeaderboardView {
        LeaderboardView {
            nickname: self.nickname@,
            value: self.value,
            latency_ms: self.latency_ms,
            timestamp: self.timestamp@,
        }
    }
}

/// The views of some entries.
pub open spec fn board_of(entries: Seq<LeaderboardEntry>) -> Seq<LeaderboardView> {
    entries.map_values(|entry: LeaderboardEntry| entry@)
}

/// What the endpoints agree on, and how they compare.
#[derive(Debug)]
pub struct ConsensusStats {
    pub fastest_rpc: String,
    pub slowest_rpc: String,
    pub fastest_latency: u128,
    pub slowest_latency: u128,
    pub consensus_blockhash: String,
    pub consensus_slot: u64,
    /// The share of the endpoints that have the consensus blockhash.
    pub consensus_percentage: Share,
    pub total_rpcs: usize,
    /// The latencies whose mean is the average; the mean of none is zero.
    pub average_latency: Vec<u128>,
    pub slot_difference: i64,
    pub slot_skew: String,
    pub latency_leaderboard: Vec<LeaderboardEntry>,
    pub slot_leaderboard: Vec<LeaderboardEntry>,
}

/// A [`ConsensusStats`] over views.
#[verifier::ext_equal]
pub struct ConsensusView {
    pub fastest_rpc: Seq<char>,
    pub slowest_rpc: Seq<char>,
    pub fastest_latency: u128,
    pub slowest_latency: u128,
    pub consensus_blockhash: Seq<char>,
    pub consensus_slot: u64,
    pub consensus_percentage: Share,
    pub total_rpcs: int,
    pub average_latency: Seq<u128>,
    pub slot_difference: int,
    pub slot_skew: Seq<char>,
    pub latency_leaderboard: Seq<LeaderboardView>,
    pub slot_leaderboard: Seq<LeaderboardView>,
}

impl View for ConsensusStats {
    type V = ConsensusView;

    open spec fn view(&self) -> ConsensusView {
        ConsensusView {
            fastest_rpc: self.fastest_rpc@,
            slowest_rpc: self.slowest_rpc@,
            fastest_latency: self.fastest_latency,
            slowest_latency: self.slowest_latency,
            consensus_blockhash: self.consensus_blockhash@,
            consensus_slot: self.consensus_slot,
            consensus_percentage: self.consensus_percentage,
            total_rpcs: self.total_rpcs as int,
            average_latency: self.average_latency@,
            slot_difference: self.slot_difference as int,
            slot_skew: self.slot_skew@,
            latency_leaderboard: board_of(self.latency_leaderboard@),
            slot_leaderboard: board_of(self.slot_leaderboard@),
        }
    }
}

/// The blockhashes of some responses.
pub open spec fn blockhashes(responses: Seq<RPCResponseView>) -> Seq<Seq<char>> {
    responses.map_values(|response: RPCResponseView| response.blockhash)
}

/// The slots of some responses.
pub open spec fn slots(responses: Seq<RPCResponseView>) -> Seq<u64> {
    responses.map_values(|response: RPCResponseView| response.slot)
}

/// The latencies of some responses.
pub open spec fn latencies(responses: Seq<RPCResponseView>) -> Seq<u128> {
    responses.map_values(|response: RPCResponseView| response.latency_ms)
}

/// Whether no response was faster than response `i`, and none before it as
/// fast.
pub open spec fn is_fastest(responses: Seq<RPCResponseView>, i: int) -> bool {
    &&& 0 <= i < responses.len()
    &&& forall|j: int| 0 <= j < responses.len() ==> responses[i].latency_ms <= (#[trigger] responses[j]).latency_ms
    &&& forall|j: int| 0 <= j < i ==> responses[i].latency_ms < (#[trigger] responses[j]).latency_ms
}

/// Whether no response was slower than response `i`, and none after it as slow.
pub open spec fn is_slowest(responses: Seq<RPCResponseView>, i: int) -> bool {
    &&& 0 <= i < responses.len()
    &&& forall|j: int| 0 <= j < responses.len() ==> (#[trigger] responses[j]).latency_ms <= responses[i].latency_ms
    &&& forall|j: int| i < j < responses.len() ==> (#[trigger] responses[j]).latency_ms < responses[i].latency_ms
}

/// The fastest response; of several, the first.
pub open spec fn fastest(responses: Seq<RPCResponseView>) -> RPCResponseView {
    responses[choose|i: int| is_fastest(responses, i)]
}

/// The slowest response; of several, the last.
pub open spec fn slowest(responses: Seq<RPCResponseView>) -> RPCResponseView {
    responses[choose|i: int| is_slowest(responses, i)]
}

/// A slot read as a signed number of 64 bits.
pub open spec fn signed(slot: u64) -> int {
    if slot < 0x8000_0000_0000_0000 {
        slot as int
    } else {
        slot - 0x1_0000_0000_0000_0000
    }
}

/// How many slots the fastest endpoint is ahead of the slowest.
pub open spec fn slot_lead(responses: Seq<RPCResponseView>) -> int {
    signed(fastest(responses).slot) - signed(slowest(responses).slot)
}

/// Whether the lead and its size are numbers of 64 bits.
pub open spec fn lead_fits(responses: Seq<RPCResponseView>) -> bool {
    responses.len() > 0 ==> i64::MIN < slot_lead(responses) <= i64::MAX
}

/// The lead in words.
pub open spec fn skew_text(lead: int) -> Seq<char> {
    if lead == 0 {
        "No skew"@
    } else if lead > 0 {
        "Fastest ahead by "@ + decimal_text(lead as nat) + " slots"@
    } else {
        "Slowest ahead by "@ + decimal_text((-lead) as nat) + " slots"@
    }
}

/// A latency cut to 64 bits.
pub open spec fn short_latency(latency: u128) -> u64 {
    (latency % 0x1_0000_0000_0000_0000) as u64
}

/// The entry of a response on the leaderboard of latencies.
pub open spec fn latency_entry(response: RPCResponseView) -> LeaderboardView {
    LeaderboardView {
        nickname: response.nickname,
        value: short_latency(response.latency_ms),
        latency_ms: response.latency_ms,
        timestamp: response.timestamp,
    }
}

/// The entry of a response on the leaderboard of slots.
pub open spec fn slot_entry(response: RPCResponseView) -> LeaderboardView {
    LeaderboardView {
        nickname: response.nickname,
        value: response.slot,
        latency_ms: response.latency_ms,
        timestamp: response.timestamp,
    }
}

/// The keys by which the leaderboard of latencies ranks: the lowest first.
pub open spec fn latency_keys(responses: Seq<RPCResponseView>) -> Seq<int> {
    responses.map_values(|response: RPCResponseView| short_latency(response.latency_ms) as int)
}

/// The keys by which the leaderboard of slots ranks: the highest slot first.
pub open spec fn slot_keys(responses: Seq<RPCResponseView>) -> Seq<int> {
    responses.map_values(|response: RPCResponseView| -(response.slot as int))
}

/// The number of entries on a leaderboard of `count` responses.
pub open spec fn board_length(count: nat) -> nat {
    if count < LEADERBOARD_SIZE {
        count
    } else {
        LEADERBOARD_SIZE as nat
    }
}

/// The leaderboard of latencies.
pub open spec fn latency_board(responses: Seq<RPCResponseView>) -> Seq<LeaderboardView> {
    let order = ranking(latency_keys(responses));
    Seq::new(board_length(responses.len()), |i: int| latency_entry(responses[order[i]]))
}

/// The leaderboard of slots.
pub open spec fn slot_board(responses: Seq<RPCResponseView>) -> Seq<LeaderboardView> {
    let order = ranking(slot_keys(responses));
    Seq::new(board_length(responses.len()), |i: int| slot_entry(responses[order[i]]))
}

/// What there is to say of no responses.
pub open spec fn no_consensus() -> ConsensusView {
    ConsensusView {
        fastest_rpc: "No data"@,
        slowest_rpc: "No data"@,
        fastest_latency: 0,
        slowest_latency: 0,
        consensus_blockhash: "No data"@,
        consensus_slot: 0,
        consensus_percentage: Share { part: 0, whole: 0 },
        total_rpcs: 0,
        average_latency: Seq::empty(),
        slot_difference: 0,
        slot_skew: "No data"@,
        latency_leaderboard: Seq::empty(),
        slot_leaderboard: Seq::empty(),
    }
}

/// What some responses agree on, and how they compare.
pub open spec fn consensus(responses: Seq<RPCResponseView>) -> ConsensusView {
    if responses.len() == 0 {
        no_consensus()
    } else {
        let hashes = blockhashes(responses);
        ConsensusView {
            fastest_rpc: fastest(responses).nickname,
            slowest_rpc: slowest(responses).nickname,
            fastest_latency: fastest(responses).latency_ms,
            slowest_latency: slowest(responses).latency_ms,
            consensus_blockhash: most_common(hashes),
            consensus_slot: most_common(slots(responses)),
            consensus_percentage: Share {
                part: occurrences(hashes, most_common(hashes)) as u64,
                whole: responses.len() as u64,
            },
            total_rpcs: responses.len() as int,
            average_latency: latencies(responses),
            slot_difference: slot_lead(responses),
            slot_skew: skew_text(slot_lead(responses)),
            latency_leaderboard: latency_board(responses),
            slot_leaderboard: slot_board(responses),
        }
    }
}

proof fn lemma_fastest(responses: Seq<RPCResponseView>, i: int)
    requires
        is_fastest(responses, i),
    ensures
        fastest(responses) == responses[i],
{
    let j = choose|j: int| is_fastest(responses, j);
    assert(is_fastest(responses, j));
    assert(responses[i].latency_ms <= responses[j].latency_ms);
    assert(responses[j].latency_ms <= responses[i].latency_ms);
}

proof fn lemma_slowest(responses: Seq<RPCResponseView>, i: int)
    requires
        is_slowest(responses, i),
    ensures
        slowest(responses) == responses[i],
{
    let j = choose|j: int| is_slowest(responses, j);
    assert(is_slowest(responses, j));
    assert(responses[i].latency_ms <= responses[j].latency_ms);
    assert(responses[j].latency_ms <= responses[i].latency_ms);
}

/// The position of the fastest response.
fn find_fastest(responses: &[RPCResponse]) -> (first: usize)
    requires
        responses@.len() > 0,
    ensures
        is_fastest(responses_of(responses@), first as int),
{
    let ghost views = responses_of(responses@);
    let mut first: usize = 0;
    let mut i: usize = 1;
    while i < responses.len()
        invariant
            first < i <= responses@.len(),
            views == responses_of(responses@),
            forall|j: int| 0 <= j < i ==> views[first as int].latency_ms <= (#[trigger] views[j]).latency_ms,
            forall|j: int| 0 <= j < first ==> views[first as int].latency_ms < (#[trigger] views[j]).latency_ms,
        decreases responses@.len() - i,
    {
        assert(views[i as int] == responses@[i as int]@);
        assert(views[first as int] == responses@[first as int]@);
        if responses[i].latency_ms < responses[first].latency_ms {
            first = i;
        }
        i = i + 1;
    }
    first
}

/// The position of the slowest response.
fn find_slowest(responses: &[RPCResponse]) -> (last: usize)
    requires
        responses@.len() > 0,
    ensures
        is_slowest(responses_of(responses@), last as int),
{
    let ghost views = responses_of(responses@);
    let mut last: usize = 0;
    let mut i: usize = 1;
    while i < responses.len()
        invariant
            last < i <= responses@.len(),
            views == responses_of(responses@),
            forall|j: int| 0 <= j < i ==> (#[trigger] views[j]).latency_ms <= views[last as int].latency_ms,
            forall|j: int| last < j < i ==> (#[trigger] views[j]).latency_ms < views[last as int].latency_ms,
        decreases responses@.len() - i,
    {
        assert(views[i as int] == responses@[i as int]@);
        assert(views[last as int] == responses@[last as int]@);
        if responses[i].latency_ms >= responses[last].latency_ms {
            last = i;
        }
        i = i + 1;
    }
    last
}

/// How often a blockhash occurs.
fn count_blockhash(responses: &[RPCResponse], hash: &String) -> (count: usize)
    ensures
        count == occurrences(blockhashes(responses_of(responses@)), hash@),
{
    let ghost hashes = blockhashes(responses_of(responses@));
    let mut count: usize = 0;
    let mut i: usize = 0;
    while i < responses.len()
        invariant
            i <= responses@.len(),
            hashes == blockhashes(responses_of(responses@)),
            count <= i,
            count == occurrences(hashes.take(i as int), hash@),
        decreases responses@.len() - i,
    {
        proof {
            assert(hashes.take(i + 1).drop_last() =~= hashes.take(i as int));
            assert(hashes.take(i + 1).last() == responses@[i as int].blockhash@);
        }
        if responses[i].blockhash == *hash {
            count = count + 1;
        }
        i = i + 1;
    }
    assert(hashes.take(i as int) =~= hashes);
    count
}

/// How often a slot occurs.
fn count_slot(responses: &[RPCResponse], slot: u64) -> (count: usize)
    ensures
        count == occurrences(slots(responses_of(responses@)), slot),
{
    let ghost row = slots(responses_of(responses@));
    let mut count: usize = 0;
    let mut i: usize = 0;
    while i < responses.len()
        invariant
            i <= responses@.len(),
            row == slots(responses_of(responses@)),
            count <= i,
            count == occurrences(row.take(i as int), slot),
        decreases responses@.len() - i,
    {
        proof {
            assert(row.take(i + 1).drop_last() =~= row.take(i as int));
            assert(row.take(i + 1).last() == responses@[i as int].slot);
        }
        if responses[i].slot == slot {
            count = count + 1;
        }
        i = i + 1;
    }
    assert(row.take(i as int) =~= row);
    count
}

/// The position of the most common blockhash, and how often it occurs.
fn find_common_blockhash(responses: &[RPCResponse]) -> (found: (usize, usize))
    requires
        responses@.len() > 0,
    ensures
        is_most_common(blockhashes(responses_of(responses@)), found.0 as int),
        found.1 == occurrences(
            blockhashes(responses_of(responses@)),
            blockhashes(responses_of(responses@))[found.0 as int],
        ),
{
    let ghost row = blockhashes(responses_of(responses@));
    let mut best: usize = 0;
    assert(row[0] == responses@[0].blockhash@);
    let mut most: usize = count_blockhash(responses, &responses[0].blockhash);
    let mut i: usize = 1;
    while i < responses.len()
        invariant
            best < i <= responses@.len(),
            row == blockhashes(responses_of(responses@)),
            most == occurrences(row, row[best as int]),
            forall|j: int| 0 <= j < i ==> occurrences(row, #[trigger] row[j]) <= most,
            forall|j: int| 0 <= j < best ==> occurrences(row, #[trigger] row[j]) < most,
        decreases responses@.len() - i,
    {
        assert(row[i as int] == responses@[i as int].blockhash@);
        let count = count_blockhash(responses, &responses[i].blockhash);
        if count > most {
            best = i;
            most = count;
        }
        i = i + 1;
    }
    (best, most)
}

/// The position of the most common slot.
fn find_common_slot(responses: &[RPCResponse]) -> (best: usize)
    requires
        responses@.len() > 0,
    ensures
        is_most_common(slots(responses_of(responses@)), best as int),
{
    let ghost row = slots(responses_of(responses@));
    let mut best: usize = 0;
    assert(row[0] == responses@[0].slot);
    let mut most: usize = count_slot(responses, responses[0].slot);
    let mut i: usize = 1;
    while i < responses.len()
        invariant
            best < i <= responses@.len(),
            row == slots(responses_of(responses@)),
            most == occurrences(row, row[best as int]),
            forall|j: int| 0 <= j < i ==> occurrences(row, #[trigger] row[j]) <= most,
            forall|j: int| 0 <= j < best ==> occurrences(row, #[trigger] row[j]) < most,
        decreases responses@.len() - i,
    {
        assert(row[i as int] == responses@[i as int].slot);
        let count = count_slot(responses, responses[i].slot);
        if count > most {
            best = i;
            most = count;
        }
        i = i + 1;
    }
    best
}

/// A slot read as a signed number.
fn read_signed(slot: u64) -> (number: i64)
    ensures
        number == signed(slot),
{
    if slot < 0x8000_0000_0000_0000 {
        slot as i64
    } else {
        let below: u64 = slot - 0x8000_0000_0000_0000;
        below as i64 + i64::MIN
    }
}

/// Whether the lead of the fastest endpoint and its size are numbers of 64
/// bits.
pub fn lead_is_small(responses: &[RPCResponse]) -> (fits: bool)
    ensures
        fits == lead_fits(responses_of(responses@)),
{
    if responses.len() == 0 {
        return true;
    }
    let first = find_fastest(responses);
    let last = find_slowest(responses);
    proof {
        lemma_fastest(responses_of(responses@), first as int);
        lemma_slowest(responses_of(responses@), last as int);
    }
    let lead: i128 = read_signed(responses[first].slot) as i128 - read_signed(responses[last].slot) as i128;
    i64::MIN as i128 <= lead - 1 && lead <= i64::MAX as i128
}

/// The lead in words.
fn describe_skew(lead: i64) -> (text: String)
    requires
        lead > i64::MIN,
    ensures
        text@ == skew_text(lead as int),
{
    if lead == 0 {
        return "No skew".to_owned();
    }
    let (mut text, size) = if lead > 0 {
        ("Fastest ahead by ".to_owned(), lead as u64)
    } else {
        ("Slowest ahead by ".to_owned(), (-lead) as u64)
    };
    append_decimal(&mut text, size);
    text.append(" slots");
    text
}

/// The latency of a response, cut to 64 bits.
fn cut_latency(latency: u128) -> (short: u64)
    ensures
        short == short_latency(latency),
{
    (latency % 0x1_0000_0000_0000_0000) as u64
}

/// The leaderboard of latencies.
fn rank_latencies(responses: &[RPCResponse]) -> (board: Vec<LeaderboardEntry>)
    ensures
        board_of(board@) == latency_board(responses_of(responses@)),
{
    let ghost views = responses_of(responses@);
    let mut keys: Vec<i128> = Vec::new();
    let mut i: usize = 0;
    while i < responses.len()
        invariant
            i <= responses@.len(),
            views == responses_of(responses@),
            keys@.len() == i,
            forall|j: int| 0 <= j < i ==> #[trigger] keys@[j] == latency_keys(views)[j],
        decreases responses@.len() - i,
    {
        keys.push(cut_latency(responses[i].latency_ms) as i128);
        i = i + 1;
    }
    assert(as_ints(keys@) =~= latency_keys(views));
    let order = rank_positions(&keys);
    let mut board: Vec<LeaderboardEntry> = Vec::new();
    let mut n: usize = 0;
    while n < order.len() && n < LEADERBOARD_SIZE
        invariant
            n <= order@.len(),
            n <= LEADERBOARD_SIZE,
            views == responses_of(responses@),
            order@.len() == responses@.len(),
            as_positions(order@) == ranking(latency_keys(views)),
            is_ranking(as_positions(order@), latency_keys(views)),
            board@.len() == n,
            forall|j: int| 0 <= j < n ==> (#[trigger] board@[j])@ == latency_board(views)[j],
        decreases order@.len() - n,
    {
        proof {
            assert(as_positions(order@)[n as int] == order@[n as int]);
        }
        let response = &responses[order[n]];
        board.push(
            LeaderboardEntry {
                nickname: response.nickname.clone(),
                value: cut_latency(response.latency_ms),
                latency_ms: response.latency_ms,
                timestamp: response.timestamp,
            },
        );
        n = n + 1;
    }
    assert(board_of(board@) =~= latency_board(views));
    board
}

/// The leaderboard of slots.
fn rank_slots(responses: &[RPCResponse]) -> (board: Vec<LeaderboardEntry>)
    ensures
        board_of(board@) == slot_board(responses_of(responses@)),
{
    let ghost views = responses_of(responses@);
    let mut keys: Vec<i128> = Vec::new();
    let mut i: usize = 0;
    while i < responses.len()
        invariant
            i <= responses@.len(),
            views == responses_of(responses@),
            keys@.len() == i,
            forall|j: int| 0 <= j < i ==> #[trigger] keys@[j] == slot_keys(views)[j],
        decreases responses@.len() - i,
    {
        keys.push(-(responses[i].slot as i128));
        i = i + 1;
    }
    assert(as_ints(keys@) =~= slot_keys(views));
    let order = rank_positions(&keys);
    let mut board: Vec<LeaderboardEntry> = Vec::new();
    let mut n: usize = 0;
    while n < order.len() && n < LEADERBOARD_SIZE
        invariant
            n <= order@.len(),
            n <= LEADERBOARD_SIZE,
            views == responses_of(responses@),
            order@.len() == responses@.len(),
            as_positions(order@) == ranking(slot_keys(views)),
            is_ranking(as_positions(order@), slot_keys(views)),
            board@.len() == n,
            forall|j: int| 0 <= j < n ==> (#[trigger] board@[j])@ == slot_board(views)[j],
        decreases order@.len() - n,
    {
        proof {
            assert(as_positions(order@)[n as int] == order@[n as int]);
        }
        let response = &responses[order[n]];
        board.push(
            LeaderboardEntry {
                nickname: response.nickname.clone(),
                value: response.slot,
                latency_ms: response.latency_ms,
                timestamp: response.timestamp,
            },
        );
        n = n + 1;
    }
    assert(board_of(board@) =~= slot_board(views));
    board
}

/// The latencies of all responses.
fn list_latencies(responses: &[RPCResponse]) -> (list: Vec<u128>)
    ensures
        list@ == latencies(responses_of(responses@)),
{
    let ghost views = responses_of(responses@);
    let mut list: Vec<u128> = Vec::new();
    let mut i: usize = 0;
    while i < responses.len()
        invariant
            i <= responses@.len(),
            views == responses_of(responses@),
            list@ =~= latencies(views).take(i as int),
        decreases responses@.len() - i,
    {
        list.push(responses[i].latency_ms);
        i = i + 1;
    }
    assert(list@ =~= latencies(views));
    list
}

/// What some responses agree on, and how they compare. Of several blockhashes
/// or slots that are equally common, the one that comes first counts.
pub fn calculate_consensus(responses: &[RPCResponse]) -> (stats: ConsensusStats)
    requires
        lead_fits(responses_of(responses@)),
    ensures
        stats@ == consensus(responses_of(responses@)),
{
    let ghost views = responses_of(responses@);
    if responses.len() == 0 {
        let stats = ConsensusStats {
            fastest_rpc: "No data".to_owned(),
            slowest_rpc: "No data".to_owned(),
            fastest_latency: 0,
            slowest_latency: 0,
            consensus_blockhash: "No data".to_owned(),
            consensus_slot: 0,
            consensus_percentage: Share { part: 0, whole: 0 },
            total_rpcs: 0,
            average_latency: Vec::new(),
            slot_difference: 0,
            slot_skew: "No data".to_owned(),
            latency_leaderboard: Vec::new(),
            slot_leaderboard: Vec::new(),
        };
        assert(stats@ =~= no_consensus());
        return stats;
    }
    let first = find_fastest(responses);
    let last = find_slowest(responses);
    let (common, count) = find_common_blockhash(responses);
    let common_slot = find_common_slot(responses);
    proof {
        lemma_fastest(views, first as int);
        lemma_slowest(views, last as int);
        lemma_most_common(blockhashes(views), common as int);
        lemma_most_common(slots(views), common_slot as int);
        assert(blockhashes(views)[common as int] == responses@[common as int].blockhash@);
        assert(slots(views)[common_slot as int] == responses@[common_slot as int].slot);
    }
    let lead: i64 = read_signed(responses[first].slot) - read_signed(responses[last].slot);
    let stats = ConsensusStats {
        fastest_rpc: responses[first].nickname.clone(),
        slowest_rpc: responses[last].nickname.clone(),
        fastest_latency: responses[first].latency_ms,
        slowest_latency: responses[last].latency_ms,
        consensus_blockhash: responses[common].blockhash.clone(),
        consensus_slot: responses[common_slot].slot,
        consensus_percentage: Share { part: count as u64, whole: responses.len() as u64 },
        total_rpcs: responses.len(),
        average_latency: list_latencies(responses),
        slot_difference: lead,
        slot_skew: describe_skew(lead),
        latency_leaderboard: rank_latencies(responses),
        slot_leaderboard: rank_slots(responses),
    };
    assert(stats@ =~= consensus(views));
    stats
}

/// The consensus blockhash and slot are those of some response, and no response
/// has one that is more common; the share of the blockhash is what it is
/// counted to be.
pub proof fn law_consensus_is_most_common(responses: Seq<RPCResponseView>, i: int)
    requires
        0 <= i < responses.len() <= u64::MAX,
    ensures
        ({
            let stats = consensus(responses);
            let hashes = blockhashes(responses);
            let row = slots(responses);
            &&& hashes.contains(stats.consensus_blockhash)
            &&& row.contains(stats.consensus_slot)
            &&& occurrences(hashes, responses[i].blockhash) <= occurrences(hashes, stats.consensus_blockhash)
            &&& occurrences(row, responses[i].slot) <= occurrences(row, stats.consensus_slot)
            &&& stats.consensus_percentage.part == occurrences(hashes, stats.consensus_blockhash)
            &&& 1 <= stats.consensus_percentage.part <= stats.consensus_percentage.whole == responses.len()
        }),
{
    let hashes = blockhashes(responses);
    let row = slots(responses);
    let a = lemma_most_common_exists(hashes, hashes.len() as int);
    let b = lemma_most_common_exists(row, row.len() as int);
    assert(is_most_common(hashes, a) && is_most_common(row, b));
    lemma_most_common(hashes, a);
    lemma_most_common(row, b);
    law_occurrences_are_bounded(hashes, a);
    assert(hashes[i] == responses[i].blockhash && row[i] == responses[i].slot);
}

proof fn lemma_fastest_exists(responses: Seq<RPCResponseView>)
    requires
        responses.len() > 0,
    ensures
        exists|i: int| is_fastest(responses, i),
    decreases responses.len(),
{
    let n = responses.len() - 1;
    if n == 0 {
        assert(is_fastest(responses, 0));
    } else {
        let rest = responses.drop_last();
        lemma_fastest_exists(rest);
        let i = choose|i: int| is_fastest(rest, i);
        assert forall|j: int| 0 <= j < n implies #[trigger] responses[j] == rest[j] by {}
        if responses[n].latency_ms < responses[i].latency_ms {
            assert(is_fastest(responses, n));
        } else {
            assert(is_fastest(responses, i));
        }
    }
}

proof fn lemma_slowest_exists(responses: Seq<RPCResponseView>)
    requires
        responses.len() > 0,
    ensures
        exists|i: int| is_slowest(responses, i),
    decreases responses.len(),
{
    let n = responses.len() - 1;
    if n == 0 {
        assert(is_slowest(responses, 0));
    } else {
        let rest = responses.drop_last();
        lemma_slowest_exists(rest);
        let i = choose|i: int| is_slowest(rest, i);
        assert forall|j: int| 0 <= j < n implies #[trigger] responses[j] == rest[j] by {}
        if responses[n].latency_ms >= responses[i].latency_ms {
            assert(is_slowest(responses, n));
        } else {
            assert(is_slowest(responses, i));
        }
    }
}

/// The fastest and the slowest latency are those of some responses, and every
/// other one lies between them.
pub proof fn law_latencies_lie_between(responses: Seq<RPCResponseView>, i: int)
    requires
        0 <= i < responses.len(),
    ensures
        consensus(responses).fastest_latency <= responses[i].latency_ms <= consensus(responses).slowest_latency,
        latencies(responses).contains(consensus(responses).fastest_latency),
        latencies(responses).contains(consensus(responses).slowest_latency),
{
    lemma_fastest_exists(responses);
    lemma_slowest_exists(responses);
    let a = choose|a: int| is_fastest(responses, a);
    let b = choose|b: int| is_slowest(responses, b);
    assert(latencies(responses)[a] == responses[a].latency_ms);
    assert(latencies(responses)[b] == responses[b].latency_ms);
}

/// A leaderboard is ranked, and no response that it leaves out ranks before one
/// that it shows.
pub proof fn law_leaderboards_show_the_best(responses: Seq<RPCResponseView>, i: int, j: int)
    requires
        0 <= i < board_length(responses.len()),
        i <= j < responses.len(),
    ensures
        latency_board(responses)[i].value <= short_latency(
            responses[ranking(latency_keys(responses))[j]].latency_ms,
        ),
        slot_board(responses)[i].value >= responses[ranking(slot_keys(responses))[j]].slot,
{
    law_ranking_exists(latency_keys(responses));
    law_ranking_exists(slot_keys(responses));
    let a = ranking(latency_keys(responses));
    let b = ranking(slot_keys(responses));
    assert(0 <= a[i] < responses.len() && 0 <= a[j] < responses.len());
    assert(0 <= b[i] < responses.len() && 0 <= b[j] < responses.len());
    if i < j {
        assert(ranks_before(latency_keys(responses), a[i], a[j]));
        assert(ranks_before(slot_keys(responses), b[i], b[j]));
    }
}

/// The values on a leaderboard.
pub open spec fn board_values(board: Seq<LeaderboardView>) -> Seq<u64> {
    board.map_values(|entry: LeaderboardView| entry.value)
}

/// The order of the responses changes neither their number, nor the fastest and
/// the slowest latency, nor the share of the consensus, nor the values on the
/// leaderboards.
pub proof fn law_order_does_not_matter(a: Seq<RPCResponseView>, b: Seq<RPCResponseView>)
    requires
        a.to_multiset() == b.to_multiset(),
    ensures
        consensus(a).total_rpcs == consensus(b).total_rpcs,
        consensus(a).fastest_latency == consensus(b).fastest_latency,
        consensus(a).slowest_latency == consensus(b).slowest_latency,
        consensus(a).consensus_percentage == consensus(b).consensus_percentage,
        board_values(consensus(a).latency_leaderboard) == board_values(consensus(b).latency_leaderboard),
        board_values(consensus(a).slot_leaderboard) == board_values(consensus(b).slot_leaderboard),
{
    a.to_multiset_ensures();
    b.to_multiset_ensures();
    assert(a.len() == b.len());
    if a.len() > 0 {
        let hash = |response: RPCResponseView| response.blockhash;
        lemma_mapped_values(a, b, hash);
        law_highest_count_does_not_depend_on_the_order(blockhashes(a), blockhashes(b));
        lemma_extremes(a, b);
        lemma_extremes(b, a);
        lemma_mapped_values(
            a,
            b,
            |response: RPCResponseView| short_latency(response.latency_ms) as int,
        );
        lemma_mapped_values(a, b, |response: RPCResponseView| -(response.slot as int));
        law_ranked_keys_do_not_depend_on_the_order(latency_keys(a), latency_keys(b));
        law_ranked_keys_do_not_depend_on_the_order(slot_keys(a), slot_keys(b));
        lemma_board_values(a);
        lemma_board_values(b);
        assert(board_values(latency_board(a)) =~= board_values(latency_board(b)));
        assert(board_values(slot_board(a)) =~= board_values(slot_board(b)));
    }
}

/// The values on a leaderboard are the keys by their rank.
proof fn lemma_board_values(responses: Seq<RPCResponseView>)
    ensures
        board_values(latency_board(responses)).len() == board_length(responses.len()),
        board_values(slot_board(responses)).len() == board_length(responses.len()),
        forall|i: int|
            0 <= i < board_length(responses.len()) ==> #[trigger] board_values(latency_board(responses))[i]
                == ranked_keys(latency_keys(responses))[i],
        forall|i: int|
            0 <= i < board_length(responses.len()) ==> #[trigger] board_values(slot_board(responses))[i] == -ranked_keys(
                slot_keys(responses),
            )[i],
{
    law_ranking_exists(latency_keys(responses));
    law_ranking_exists(slot_keys(responses));
    let p = ranking(latency_keys(responses));
    let q = ranking(slot_keys(responses));
    assert forall|i: int| 0 <= i < board_length(responses.len()) implies #[trigger] board_values(
        latency_board(responses),
    )[i] == ranked_keys(latency_keys(responses))[i] by {
        assert(0 <= p[i] < responses.len());
    }
    assert forall|i: int| 0 <= i < board_length(responses.len()) implies #[trigger] board_values(
        slot_board(responses),
    )[i] == -ranked_keys(slot_keys(responses))[i] by {
        assert(0 <= q[i] < responses.len());
    }
}

/// No response of `b` lies outside the latencies of the same responses.
proof fn lemma_extremes(a: Seq<RPCResponseView>, b: Seq<RPCResponseView>)
    requires
        a.to_multiset() == b.to_multiset(),
        a.len() > 0,
        b.len() > 0,
    ensures
        fastest(a).latency_ms <= fastest(b).latency_ms,
        slowest(b).latency_ms <= slowest(a).latency_ms,
{
    a.to_multiset_ensures();
    b.to_multiset_ensures();
    lemma_fastest_exists(b);
    lemma_slowest_exists(b);
    let i = choose|i: int| is_fastest(b, i);
    let j = choose|j: int| is_slowest(b, j);
    lemma_fastest(b, i);
    lemma_slowest(b, j);
    assert(b.contains(b[i]) && b.contains(b[j]));
    assert(a.to_multiset().count(b[i]) > 0 && a.to_multiset().count(b[j]) > 0);
    assert(a.contains(b[i]) && a.contains(b[j]));
    let k = choose|k: int| 0 <= k < a.len() && a[k] == b[i];
    let l = choose|l: int| 0 <= l < a.len() && a[l] == b[j];
    law_latencies_lie_between(a, k);
    law_latencies_lie_between(a, l);
}

/// The average latency is over every response: each has its latency in it, and
/// the responses are counted as many as they are.
pub proof fn law_average_is_over_every_response(stats: ConsensusStats, responses: Seq<RPCResponseView>)
    requires
        stats@ == consensus(responses),
    ensures
        stats.total_rpcs == responses.len(),
        stats.average_latency@.len() == responses.len(),
        forall|i: int| 0 <= i < responses.len() ==> #[trigger] stats.average_latency@[i] == responses[i].latency_ms,
{
    assert(stats.average_latency@ == consensus(responses).average_latency);
}

/// Whether no response was faster than response `i`, and none before it as fast,
/// and no response slower than response `j`, and none after it as slow.
pub open spec fn are_extremes(responses: Seq<RPCResponseView>, i: int, j: int) -> bool {
    &&& 0 <= i < responses.len()
    &&& 0 <= j < responses.len()
    &&& forall|k: int|
        0 <= k < responses.len() ==> {
            &&& responses[i].latency_ms <= (#[trigger] responses[k]).latency_ms <= responses[j].latency_ms
            &&& k < i ==> responses[i].latency_ms < responses[k].latency_ms
            &&& k > j ==> responses[k].latency_ms < responses[j].latency_ms
        }
}

/// The fastest and the slowest endpoint are told with their latencies, and with
/// how many slots the fastest is ahead.
pub proof fn law_fastest_and_slowest_are_told(stats: ConsensusStats, responses: Seq<RPCResponseView>)
    requires
        stats@ == consensus(responses),
        responses.len() > 0,
    ensures
        exists|i: int, j: int|
            {
                &&& #[trigger] are_extremes(responses, i, j)
                &&& stats.fastest_rpc@ == responses[i].nickname
                &&& stats.fastest_latency == responses[i].latency_ms
                &&& stats.slowest_rpc@ == responses[j].nickname
                &&& stats.slowest_latency == responses[j].latency_ms
                &&& responses[i].slot <= i64::MAX && responses[j].slot <= i64::MAX ==> stats.slot_difference
                    == responses[i].slot - responses[j].slot
            },
{
    lemma_fastest_exists(responses);
    lemma_slowest_exists(responses);
    let i = choose|i: int| is_fastest(responses, i);
    let j = choose|j: int| is_slowest(responses, j);
    lemma_fastest(responses, i);
    lemma_slowest(responses, j);
    assert(are_extremes(responses, i, j));
}

/// The consensus blockhash and slot are those that most responses have, and the
/// share tells how many have the blockhash, of how many.
pub proof fn law_consensus_is_told(
    stats: ConsensusStats,
    responses: Seq<RPCResponseView>,
    hash: Seq<char>,
    slot: u64,
)
    requires
        stats@ == consensus(responses),
        0 < responses.len() <= u64::MAX,
    ensures
        exists|i: int| 0 <= i < responses.len() && (#[trigger] responses[i]).blockhash == stats.consensus_blockhash@,
        exists|i: int| 0 <= i < responses.len() && (#[trigger] responses[i]).slot == stats.consensus_slot,
        stats.consensus_percentage.whole == responses.len(),
        stats.consensus_percentage.part == Set::new(
            |i: int| 0 <= i < responses.len() && responses[i].blockhash == stats.consensus_blockhash@,
        ).len(),
        Set::new(|i: int| 0 <= i < responses.len() && responses[i].blockhash == hash).len()
            <= stats.consensus_percentage.part,
        Set::new(|i: int| 0 <= i < responses.len() && responses[i].slot == slot).len() <= Set::new(
            |i: int| 0 <= i < responses.len() && responses[i].slot == stats.consensus_slot,
        ).len(),
{
    let hashes = blockhashes(responses);
    let row = slots(responses);
    let common = stats.consensus_blockhash@;
    let common_slot = stats.consensus_slot;
    law_consensus_is_most_common(responses, 0);
    let a = choose|a: int| 0 <= a < hashes.len() && hashes[a] == common;
    let b = choose|b: int| 0 <= b < row.len() && row[b] == common_slot;
    assert(responses[a].blockhash == common && responses[b].slot == common_slot);
    lemma_hash_count(responses, common);
    lemma_hash_count(responses, hash);
    lemma_slot_count(responses, common_slot);
    lemma_slot_count(responses, slot);
    if hashes.contains(hash) {
        let k = choose|k: int| 0 <= k < hashes.len() && hashes[k] == hash;
        law_consensus_is_most_common(responses, k);
    } else {
        lemma_no_occurrences(hashes, hash);
    }
    if row.contains(slot) {
        let k = choose|k: int| 0 <= k < row.len() && row[k] == slot;
        law_consensus_is_most_common(responses, k);
    } else {
        lemma_no_occurrences(row, slot);
    }
}

proof fn lemma_hash_count(responses: Seq<RPCResponseView>, hash: Seq<char>)
    ensures
        occurrences(blockhashes(responses), hash) == Set::new(
            |i: int| 0 <= i < responses.len() && responses[i].blockhash == hash,
        ).len(),
{
    let n = responses.len() as int;
    let holds = |i: int| responses[i].blockhash == hash;
    law_occurrences_are_positions(blockhashes(responses), hash, n, holds);
    assert(Set::new(|i: int| 0 <= i < n && holds(i)) =~= Set::new(
        |i: int| 0 <= i < responses.len() && responses[i].blockhash == hash,
    ));
}

proof fn lemma_slot_count(responses: Seq<RPCResponseView>, slot: u64)
    ensures
        occurrences(slots(responses), slot) == Set::new(
            |i: int| 0 <= i < responses.len() && responses[i].slot == slot,
        ).len(),
{
    let n = responses.len() as int;
    let holds = |i: int| responses[i].slot == slot;
    law_occurrences_are_positions(slots(responses), slot, n, holds);
    assert(Set::new(|i: int| 0 <= i < n && holds(i)) =~= Set::new(
        |i: int| 0 <= i < responses.len() && responses[i].slot == slot,
    ));
}

/// A value that is not contained does not occur.
proof fn lemma_no_occurrences<T>(row: Seq<T>, value: T)
    requires
        !row.contains(value),
    ensures
        occurrences(row, value) == 0,
    decreases row.len(),
{
    if row.len() > 0 {
        let rest = row.drop_last();
        assert(row[row.len() - 1] != value);
        assert(!rest.contains(value)) by {
            if rest.contains(value) {
                let i = choose|i: int| 0 <= i < rest.len() && rest[i] == value;
                assert(row[i] == value);
            }
        }
        lemma_no_occurrences(rest, value);
    }
}

/// The skew tells the lead: which endpoint is ahead, and by how many slots. Two
/// leads that are told alike are the same.
pub proof fn law_skew_tells_the_lead(a: int, b: int)
    requires
        skew_text(a) == skew_text(b),
    ensures
        a == b,
{
    reveal_strlit("No skew");
    reveal_strlit("Fastest ahead by ");
    reveal_strlit("Slowest ahead by ");
    reveal_strlit(" slots");
    let fast = "Fastest ahead by "@;
    let slow = "Slowest ahead by "@;
    let end = " slots"@;
    let x = skew_text(a);
    let y = skew_text(b);
    assert(x[0] == y[0]);
    if a != 0 && b != 0 {
        let m = (if a > 0 { a } else { -a }) as nat;
        let n = (if b > 0 { b } else { -b }) as nat;
        law_decimal_text_reads_back(m);
        law_decimal_text_reads_back(n);
        let p = decimal_text(m);
        let q = decimal_text(n);
        assert(x.subrange(17, x.len() - 6) =~= p);
        assert(y.subrange(17, y.len() - 6) =~= q);
    }
}

/// The skew is that of the difference that is told, and it tells who is ahead.
pub proof fn law_skew_is_that_of_the_difference(stats: ConsensusStats, responses: Seq<RPCResponseView>)
    requires
        stats@ == consensus(responses),
        responses.len() > 0,
    ensures
        stats.slot_skew@ == skew_text(stats.slot_difference as int),
        stats.slot_difference == 0 ==> stats.slot_skew@ == "No skew"@,
        stats.slot_difference > 0 ==> stats.slot_skew@ == "Fastest ahead by "@ + decimal_text(
            stats.slot_difference as nat,
        ) + " slots"@,
        stats.slot_difference < 0 ==> stats.slot_skew@ == "Slowest ahead by "@ + decimal_text(
            (-stats.slot_difference) as nat,
        ) + " slots"@,
{
}

/// Whether a leaderboard shows the responses `picks`, where `values` ranks them:
/// the lowest value first, of equal ones the earlier response, and none that is
/// left out would rank before one that is shown.
pub open spec fn shows_best(
    board: Seq<LeaderboardEntry>,
    picks: Seq<int>,
    responses: Seq<RPCResponseView>,
    values: Seq<int>,
) -> bool {
    &&& board.len() == picks.len()
    &&& responses.len() <= 4 ==> picks.len() == responses.len()
    &&& responses.len() > 4 ==> picks.len() == 4
    &&& forall|k: int|
        0 <= k < picks.len() ==> {
            &&& 0 <= #[trigger] picks[k] < responses.len()
            &&& board[k].nickname@ == responses[picks[k]].nickname
            &&& board[k].latency_ms == responses[picks[k]].latency_ms
            &&& board[k].timestamp@ == responses[picks[k]].timestamp
        }
    &&& forall|k: int, l: int|
        0 <= k < l < picks.len() ==> {
            ||| values[#[trigger] picks[k]] < values[#[trigger] picks[l]]
            ||| values[picks[k]] == values[picks[l]] && picks[k] < picks[l]
        }
    &&& forall|j: int, k: int|
        0 <= j < responses.len() && 0 <= k < picks.len() && !picks.contains(j) ==> {
            ||| #[trigger] values[j] > values[#[trigger] picks[k]]
            ||| values[j] == values[picks[k]] && j > picks[k]
        }
}

/// The first places of a ranking are the best.
proof fn lemma_best(responses: Seq<RPCResponseView>, keys: Seq<int>) -> (picks: Seq<int>)
    requires
        keys.len() == responses.len(),
    ensures
        picks == ranking(keys).take(board_length(responses.len()) as int),
        picks.len() == board_length(responses.len()),
        forall|k: int| 0 <= k < picks.len() ==> 0 <= #[trigger] picks[k] < responses.len(),
        forall|k: int, l: int|
            0 <= k < l < picks.len() ==> ranks_before(keys, #[trigger] picks[k], #[trigger] picks[l]),
        forall|j: int, k: int|
            0 <= j < responses.len() && 0 <= k < picks.len() && !picks.contains(j) ==> #[trigger] ranks_before(
                keys,
                picks[k],
                j,
            ),
{
    law_ranking_exists(keys);
    let order = ranking(keys);
    let picks = order.take(board_length(responses.len()) as int);
    assert forall|k: int| 0 <= k < picks.len() implies 0 <= #[trigger] picks[k] < responses.len() by {
        assert(picks[k] == order[k]);
    }
    assert forall|k: int, l: int| 0 <= k < l < picks.len() implies ranks_before(
        keys,
        #[trigger] picks[k],
        #[trigger] picks[l],
    ) by {
        assert(picks[k] == order[k] && picks[l] == order[l]);
    }
    assert forall|j: int, k: int| 0 <= j < responses.len() && 0 <= k < picks.len() && !picks.contains(
        j,
    ) implies #[trigger] ranks_before(keys, picks[k], j) by {
        law_ranking_lists_every_position(order, keys, j);
        let at = choose|at: int| 0 <= at < order.len() && order[at] == j;
        if at < picks.len() {
            assert(picks[at] == j);
        }
        assert(ranks_before(keys, order[k], order[at]));
    }
    picks
}

/// The leaderboard of latencies shows the four responses with the lowest
/// latencies, or all where there are fewer.
pub proof fn law_latency_leaderboard_shows_the_lowest(
    stats: ConsensusStats,
    responses: Seq<RPCResponseView>,
    values: Seq<int>,
)
    requires
        stats@ == consensus(responses),
        values.len() == responses.len(),
        forall|i: int| 0 <= i < values.len() ==> #[trigger] values[i] == responses[i].latency_ms % 0x1_0000_0000_0000_0000,
    ensures
        exists|picks: Seq<int>|
            {
                &&& #[trigger] shows_best(stats.latency_leaderboard@, picks, responses, values)
                &&& forall|k: int|
                    0 <= k < picks.len() ==> (#[trigger] stats.latency_leaderboard@[k]).value
                        == responses[picks[k]].latency_ms % 0x1_0000_0000_0000_0000
            },
{
    let board = stats.latency_leaderboard@;
    let keys = latency_keys(responses);
    let picks = lemma_best(responses, keys);
    law_ranking_exists(keys);
    assert(keys =~= values);
    assert(board_of(board) == latency_board(responses));
    assert(board_of(board).len() == board.len());
    assert forall|k: int| 0 <= k < picks.len() implies (#[trigger] board[k])@ == latency_entry(responses[picks[k]]) by {
        assert(board_of(board)[k] == board[k]@);
        assert(picks[k] == ranking(keys)[k]);
    }
    assert forall|k: int| 0 <= k < picks.len() implies ({
        &&& 0 <= #[trigger] picks[k] < responses.len()
        &&& board[k].nickname@ == responses[picks[k]].nickname
        &&& board[k].latency_ms == responses[picks[k]].latency_ms
        &&& board[k].timestamp@ == responses[picks[k]].timestamp
    }) by {
        assert(board[k]@.nickname == responses[picks[k]].nickname);
    }
    assert forall|j: int, k: int| 0 <= j < responses.len() && 0 <= k < picks.len() && !picks.contains(j) implies ({
        ||| #[trigger] values[j] > values[#[trigger] picks[k]]
        ||| values[j] == values[picks[k]] && j > picks[k]
    }) by {
        assert(ranks_before(keys, picks[k], j));
    }
    assert forall|k: int, l: int| 0 <= k < l < picks.len() implies ({
        ||| values[#[trigger] picks[k]] < values[#[trigger] picks[l]]
        ||| values[picks[k]] == values[picks[l]] && picks[k] < picks[l]
    }) by {
        assert(ranks_before(keys, picks[k], picks[l]));
    }
    assert(shows_best(board, picks, responses, values));
    assert forall|k: int| 0 <= k < picks.len() implies (#[trigger] board[k]).value == responses[picks[k]].latency_ms
        % 0x1_0000_0000_0000_0000 by {
        assert(board[k]@.value == short_latency(responses[picks[k]].latency_ms));
    }
}

/// The leaderboard of slots shows the four responses with the highest slots, or
/// all where there are fewer.
pub proof fn law_slot_leaderboard_shows_the_highest(
    stats: ConsensusStats,
    responses: Seq<RPCResponseView>,
    values: Seq<int>,
)
    requires
        stats@ == consensus(responses),
        values.len() == responses.len(),
        forall|i: int| 0 <= i < values.len() ==> #[trigger] values[i] == -(responses[i].slot as int),
    ensures
        exists|picks: Seq<int>|
            {
                &&& #[trigger] shows_best(stats.slot_leaderboard@, picks, responses, values)
                &&& forall|k: int|
                    0 <= k < picks.len() ==> (#[trigger] stats.slot_leaderboard@[k]).value
                        == responses[picks[k]].slot
            },
{
    let board = stats.slot_leaderboard@;
    let keys = slot_keys(responses);
    let picks = lemma_best(responses, keys);
    law_ranking_exists(keys);
    assert(keys =~= values);
    assert(board_of(board) == slot_board(responses));
    assert(board_of(board).len() == board.len());
    assert forall|k: int| 0 <= k < picks.len() implies (#[trigger] board[k])@ == slot_entry(responses[picks[k]]) by {
        assert(board_of(board)[k] == board[k]@);
        assert(picks[k] == ranking(keys)[k]);
    }
    assert forall|k: int| 0 <= k < picks.len() implies ({
        &&& 0 <= #[trigger] picks[k] < responses.len()
        &&& board[k].nickname@ == responses[picks[k]].nickname
        &&& board[k].latency_ms == responses[picks[k]].latency_ms
        &&& board[k].timestamp@ == responses[picks[k]].timestamp
    }) by {
        assert(board[k]@.nickname == responses[picks[k]].nickname);
    }
    assert forall|j: int, k: int| 0 <= j < responses.len() && 0 <= k < picks.len() && !picks.contains(j) implies ({
        ||| #[trigger] values[j] > values[#[trigger] picks[k]]
        ||| values[j] == values[picks[k]] && j > picks[k]
    }) by {
        assert(ranks_before(keys, picks[k], j));
    }
    assert forall|k: int, l: int| 0 <= k < l < picks.len() implies ({
        ||| values[#[trigger] picks[k]] < values[#[trigger] picks[l]]
        ||| values[picks[k]] == values[picks[l]] && picks[k] < picks[l]
    }) by {
        assert(ranks_before(keys, picks[k], picks[l]));
    }
    assert(shows_best(board, picks, responses, values));
    assert forall|k: int| 0 <= k < picks.len() implies (#[trigger] board[k]).value == responses[picks[k]].slot by {
        assert(board[k]@.value == responses[picks[k]].slot);
    }
}

/// Of no responses nothing is told.
pub proof fn law_no_responses_tell_nothing(stats: ConsensusStats, responses: Seq<RPCResponseView>)
    requires
        stats@ == consensus(responses),
        responses.len() == 0,
    ensures
        stats.fastest_rpc@ == "No data"@,
        stats.slowest_rpc@ == "No data"@,
        stats.consensus_blockhash@ == "No data"@,
        stats.slot_skew@ == "No data"@,
        stats.fastest_latency == 0,
        stats.slowest_latency == 0,
        stats.consensus_slot == 0,
        stats.consensus_percentage.part == 0,
        stats.total_rpcs == 0,
        stats.average_latency@.len() == 0,
        stats.slot_difference == 0,
        stats.latency_leaderboard@.len() == 0,
        stats.slot_leaderboard@.len() == 0,
{
    assert(stats@.latency_leaderboard.len() == 0);
    assert(stats@.slot_leaderboard.len() == 0);
}

} // verus!

//! The draw: a seed from the ledger's clock, and a winner picked by ticket
//! weight.
//!
//! The participants with tickets stand side by side on a line of tickets, in
//! order of first deposit, each on as many tickets as it holds. The seed picks
//! one ticket of the line, and whoever stands on it wins.

use vstd::prelude::*;
use crate::error::PoolError;
use crate::registry::lemma_sum_nonnegative;
use crate::registry::lemma_sum_prefix;
use crate::registry::solvent;
use crate::registry::sum_by;
use crate::registry::ticket_sum;
use crate::registry::views;
use crate::registry::Participant;
use crate::registry::ParticipantView;

verus! {

/// The number of values a seed can take.
pub open spec fn seed_range() -> int {
    0x1_0000_0000_0000_0000_0000_0000_0000_0000int
}

/// The seed of the draw made at `timestamp` and ledger `sequence` after
/// `nonce` earlier draws.
pub open spec fn seed_of(timestamp: int, sequence: int, nonce: int) -> int {
    ((timestamp * 31 + sequence) * 31 + nonce) % seed_range()
}

/// The tickets with which a participant takes part in a draw: its tickets,
/// if it has any.
pub open spec fn stake(p: ParticipantView) -> int {
    if p.tickets > 0 {
        p.tickets
    } else {
        0
    }
}

/// Measures a participant by its stake.
pub open spec fn by_stake() -> spec_fn(ParticipantView) -> int {
    |p: ParticipantView| stake(p)
}

/// Some participant holds a ticket.
pub open spec fn has_eligible(ps: Seq<ParticipantView>) -> bool {
    exists|i: int| 0 <= i < ps.len() && (#[trigger] ps[i]).tickets > 0
}

/// The length of the line: all tickets of the participants that hold any.
pub open spec fn eligible_tickets(ps: Seq<ParticipantView>) -> int {
    sum_by(ps, by_stake())
}

/// Where on the line the participant at position `k` begins: the tickets of
/// the eligible participants before it.
pub open spec fn line_start(ps: Seq<ParticipantView>, k: int) -> int {
    sum_by(ps.take(k), by_stake())
}

/// The participant at position `w` stands on ticket `index`: the ticket lies
/// in the half-open range that begins at `w`'s start and is `w`'s stake long.
pub open spec fn holds_ticket(ps: Seq<ParticipantView>, w: int, index: int) -> bool {
    &&& 0 <= w < ps.len()
    &&& line_start(ps, w) <= index < line_start(ps, w) + stake(ps[w])
}

/// The position of the participant that stands on ticket `index`.
pub open spec fn winner_slot(ps: Seq<ParticipantView>, index: int) -> int {
    choose|w: int| holds_ticket(ps, w, index)
}

/// The outcome of a draw among `ps` with `seed`: the position of the winner,
/// who stands on ticket `seed` modulo the length of the line.
pub open spec fn drawn(ps: Seq<ParticipantView>, seed: int) -> Result<int, PoolError> {
    if has_eligible(ps) {
        Ok(winner_slot(ps, seed % eligible_tickets(ps)))
    } else {
        Err(PoolError::NoEligibleParticipants)
    }
}

proof fn lemma_stake_measure(ps: Seq<ParticipantView>)
    ensures
        forall|i: int| 0 <= i < ps.len() ==> by_stake()(#[trigger] ps[i]) >= 0,
{
}

/// The line begins at zero, each participant begins where the one before it
/// ends, and the last one ends at the length of the line.
pub proof fn lemma_line(ps: Seq<ParticipantView>, k: int)
    requires
        0 <= k <= ps.len(),
    ensures
        line_start(ps, 0) == 0,
        line_start(ps, ps.len() as int) == eligible_tickets(ps),
        0 <= line_start(ps, k) <= eligible_tickets(ps),
        k < ps.len() ==> line_start(ps, k + 1) == line_start(ps, k) + stake(ps[k]),
{
    lemma_stake_measure(ps);
    lemma_sum_prefix(ps, k, by_stake());
    assert(ps.take(ps.len() as int) == ps);
    assert(ps.take(0).len() == 0);
}

/// Later participants begin further along the line.
pub proof fn lemma_line_grows(ps: Seq<ParticipantView>, a: int, b: int)
    requires
        0 <= a <= b <= ps.len(),
    ensures
        line_start(ps, a) <= line_start(ps, b),
    decreases b - a,
{
    if a < b {
        lemma_line(ps, a);
        lemma_line_grows(ps, a + 1, b);
    }
}

/// The line has a ticket exactly when some participant holds one.
pub proof fn lemma_line_empty(ps: Seq<ParticipantView>)
    ensures
        has_eligible(ps) <==> eligible_tickets(ps) > 0,
        eligible_tickets(ps) >= 0,
    decreases ps.len(),
{
    lemma_stake_measure(ps);
    lemma_sum_nonnegative(ps, by_stake());
    if ps.len() > 0 {
        let rest = ps.drop_last();
        lemma_line_empty(rest);
        lemma_stake_measure(rest);
        lemma_sum_nonnegative(rest, by_stake());
        if has_eligible(rest) {
            let i = choose|i: int| 0 <= i < rest.len() && (#[trigger] rest[i]).tickets > 0;
            assert(ps[i].tickets > 0);
        }
        if ps.last().tickets > 0 {
            assert(ps[ps.len() - 1].tickets > 0);
        }
        if has_eligible(ps) {
            let i = choose|i: int| 0 <= i < ps.len() && (#[trigger] ps[i]).tickets > 0;
            if i < ps.len() - 1 {
                assert(rest[i].tickets > 0);
            }
        }
    }
}

proof fn lemma_winner_exists(ps: Seq<ParticipantView>, index: int, k: int)
    requires
        0 <= k <= ps.len(),
        line_start(ps, k) <= index < eligible_tickets(ps),
    ensures
        exists|w: int| holds_ticket(ps, w, index),
    decreases ps.len() - k,
{
    lemma_line(ps, k);
    if k < ps.len() {
        if index < line_start(ps, k) + stake(ps[k]) {
            assert(holds_ticket(ps, k, index));
        } else {
            lemma_winner_exists(ps, index, k + 1);
        }
    }
}

/// Every ticket of the line has exactly one participant standing on it.
pub proof fn lemma_one_winner(ps: Seq<ParticipantView>, index: int)
    requires
        0 <= index < eligible_tickets(ps),
    ensures
        holds_ticket(ps, winner_slot(ps, index), index),
        forall|w: int| holds_ticket(ps, w, index) ==> w == winner_slot(ps, index),
{
    lemma_line(ps, 0);
    lemma_winner_exists(ps, index, 0);
    let win = winner_slot(ps, index);
    assert forall|w: int| holds_ticket(ps, w, index) implies w == win by {
        if w < win {
            lemma_line(ps, w);
            lemma_line_grows(ps, w + 1, win);
        } else if win < w {
            lemma_line(ps, win);
            lemma_line_grows(ps, win + 1, w);
        }
    }
}

/// The winner of a draw holds at least one ticket.
pub proof fn lemma_winner_eligible(ps: Seq<ParticipantView>, seed: int)
    requires
        has_eligible(ps),
    ensures
        drawn(ps, seed) is Ok,
        0 <= drawn(ps, seed)->Ok_0 < ps.len(),
        ps[drawn(ps, seed)->Ok_0].tickets > 0,
{
    lemma_line_empty(ps);
    let total = eligible_tickets(ps);
    lemma_one_winner(ps, seed % total);
}

/// In a solvent registry the line of a draw is as long as the sum of all
/// tickets.
pub proof fn lemma_stake_is_tickets(ps: Seq<ParticipantView>)
    requires
        solvent(ps),
    ensures
        eligible_tickets(ps) == ticket_sum(ps),
    decreases ps.len(),
{
    if ps.len() > 0 {
        assert forall|i: int| 0 <= i < ps.drop_last().len() implies (#[trigger] ps.drop_last()[i]).balance
            >= 0 && ps.drop_last()[i].tickets >= 0 by {
            assert(ps.drop_last()[i] == ps[i]);
        }
        lemma_stake_is_tickets(ps.drop_last());
        assert(ps[ps.len() - 1].tickets >= 0);
    }
}

/// Derives the seed of a draw from the ledger's clock and the number of
/// earlier draws. The arithmetic is 128 bits wide and wraps around.
pub fn draw_seed(timestamp: u64, sequence: u32, nonce: u64) -> (seed: u128)
    ensures
        seed == seed_of(timestamp as int, sequence as int, nonce as int),
        seed == (timestamp * 31 + sequence) * 31 + nonce,
{
    let wide_timestamp: u128 = timestamp as u128;
    let wide_sequence: u128 = sequence as u128;
    let wide_nonce: u128 = nonce as u128;
    wide_timestamp.wrapping_mul(31).wrapping_add(wide_sequence).wrapping_mul(31).wrapping_add(
        wide_nonce,
    )
}

/// The length of the line among `entries`.
pub fn count_eligible_tickets(entries: &Vec<Participant>) -> (total: i128)
    requires
        eligible_tickets(views(entries@)) <= i128::MAX,
    ensures
        total == eligible_tickets(views(entries@)),
{
    let ghost ps = views(entries@);
    let mut total: i128 = 0;
    let mut i: usize = 0;
    proof {
        lemma_line(ps, 0);
    }
    while i < entries.len()
        invariant
            i <= entries.len(),
            ps == views(entries@),
            total == line_start(ps, i as int),
            eligible_tickets(ps) <= i128::MAX,
        decreases entries.len() - i,
    {
        proof {
            lemma_line(ps, i as int);
            lemma_line(ps, i + 1);
        }
        let held: i128 = entries[i].tickets;
        if held > 0 {
            total = total + held;
        }
        i += 1;
    }
    proof {
        lemma_line(ps, i as int);
    }
    total
}

/// Finds who stands on ticket `index` of the line: the first participant
/// with tickets, in order of first deposit, at which the running sum of
/// tickets exceeds `index`.
pub fn pick_winner(entries: &Vec<Participant>, index: i128) -> (winner: usize)
    requires
        0 <= index < eligible_tickets(views(entries@)),
        eligible_tickets(views(entries@)) <= i128::MAX,
    ensures
        winner == winner_slot(views(entries@), index as int),
        holds_ticket(views(entries@), winner as int, index as int),
{
    let ghost ps = views(entries@);
    let mut cumulative: i128 = 0;
    let mut i: usize = 0;
    proof {
        lemma_line(ps, 0);
        lemma_one_winner(ps, index as int);
    }
    loop
        invariant
            i < entries.len(),
            ps == views(entries@),
            cumulative == line_start(ps, i as int),
            cumulative <= index < eligible_tickets(ps),
            eligible_tickets(ps) <= i128::MAX,
            forall|w: int| holds_ticket(ps, w, index as int) ==> w == winner_slot(ps, index as int),
        decreases entries.len() - i,
    {
        proof {
            lemma_line(ps, i as int);
            lemma_line(ps, i + 1);
        }
        let held: i128 = entries[i].tickets;
        if held > 0 {
            cumulative = cumulative + held;
            if index < cumulative {
                assert(holds_ticket(ps, i as int, index as int));
                return i;
            }
        }
        i += 1;
        proof {
            if i == entries.len() {
                lemma_line(ps, i as int);
            }
        }
    }
}

/// Draws among `entries` with `seed`: the position of the winner, or
/// `NoEligibleParticipants` where nobody holds a ticket.
pub fn select_winner(entries: &Vec<Participant>, seed: u128) -> (winner: Result<usize, PoolError>)
    requires
        eligible_tickets(views(entries@)) <= i128::MAX,
    ensures
        match winner {
            Ok(w) => drawn(views(entries@), seed as int) == Ok::<int, PoolError>(w as int),
            Err(e) => drawn(views(entries@), seed as int) == Err::<int, PoolError>(e),
        },
{
    proof {
        lemma_line_empty(views(entries@));
    }
    let total: i128 = count_eligible_tickets(entries);
    if total <= 0 {
        return Err(PoolError::NoEligibleParticipants);
    }
    let index: i128 = (seed % (total as u128)) as i128;
    Ok(pick_winner(entries, index))
}

} // verus!

use lucky_stake::draw::count_eligible_tickets;
use lucky_stake::draw::draw_seed;
use lucky_stake::draw::pick_winner;
use lucky_stake::draw::select_winner;
use lucky_stake::error::PoolError;
use lucky_stake::identity::Address;
use lucky_stake::registry::Participant;

fn entries(tickets: &[i128]) -> Vec<Participant> {
    tickets
        .iter()
        .enumerate()
        .map(|(i, held)| Participant {
            id: Address::new(vec![b'p', i as u8]),
            balance: if *held > 0 { *held } else { 0 },
            tickets: *held,
        })
        .collect()
}

#[test]
fn the_seed_mixes_time_sequence_and_nonce() {
    assert_eq!(draw_seed(0, 0, 0), 0);
    assert_eq!(draw_seed(0, 0, 9), 9);
    assert_eq!(draw_seed(0, 1, 0), 31);
    assert_eq!(draw_seed(1, 0, 0), 961);
    assert_eq!(draw_seed(1, 2, 3), 1026);
    assert_eq!(draw_seed(1_700_000_000, 51_234_567, 12), 1_635_288_271_589);
}

#[test]
fn the_seed_has_room_for_the_largest_inputs() {
    let timestamp = u64::MAX as u128;
    let sequence = u32::MAX as u128;
    let nonce = u64::MAX as u128;
    assert_eq!(draw_seed(u64::MAX, u32::MAX, u64::MAX), (timestamp * 31 + sequence) * 31 + nonce);
    assert_eq!(draw_seed(u64::MAX, u32::MAX, u64::MAX), 17_745_767_799_041_732_639_775);
}

#[test]
fn the_next_nonce_gives_the_next_seed() {
    for (timestamp, sequence, nonce) in
        [(0u64, 0u32, 0u64), (5, 6, 7), (u64::MAX, u32::MAX, u64::MAX - 1)]
    {
        assert_eq!(
            draw_seed(timestamp, sequence, nonce + 1),
            draw_seed(timestamp, sequence, nonce) + 1
        );
        assert_ne!(draw_seed(timestamp, sequence, nonce + 1), draw_seed(timestamp, sequence, nonce));
    }
}

#[test]
fn only_positive_tickets_count() {
    assert_eq!(count_eligible_tickets(&entries(&[])), 0);
    assert_eq!(count_eligible_tickets(&entries(&[0, 0])), 0);
    assert_eq!(count_eligible_tickets(&entries(&[10, 0, 20, 5])), 35);
    assert_eq!(count_eligible_tickets(&entries(&[10, -4, 20, -1])), 30);
    assert_eq!(count_eligible_tickets(&entries(&[i128::MAX - 1, 0, 1])), i128::MAX);
}

#[test]
fn each_ticket_has_one_holder() {
    let line = entries(&[10, 0, 20, 5]);
    for index in 0..35i128 {
        let expected = if index < 10 {
            0
        } else if index < 30 {
            2
        } else {
            3
        };
        assert_eq!(pick_winner(&line, index), expected);
    }
}

#[test]
fn every_participant_wins_as_many_seeds_as_it_holds_tickets() {
    let line = entries(&[3, 0, 1, 6, 0]);
    let mut wins = [0i128; 5];
    for seed in 0..1_000u128 {
        wins[select_winner(&line, seed).unwrap()] += 1;
    }
    assert_eq!(wins, [300, 0, 100, 600, 0]);
}

#[test]
fn the_seed_wraps_around_the_line() {
    let line = entries(&[10, 0, 20, 5]);
    assert_eq!(select_winner(&line, 0), Ok(0));
    assert_eq!(select_winner(&line, 9), Ok(0));
    assert_eq!(select_winner(&line, 10), Ok(2));
    assert_eq!(select_winner(&line, 29), Ok(2));
    assert_eq!(select_winner(&line, 30), Ok(3));
    assert_eq!(select_winner(&line, 34), Ok(3));
    assert_eq!(select_winner(&line, 35), Ok(0));
    assert_eq!(select_winner(&line, 35 * 1_000_000 + 17), Ok(2));
    // u128::MAX = 35 * 9722353340598241813239274498050520327 + 10
    assert_eq!(select_winner(&line, u128::MAX), Ok(2));
}

#[test]
fn a_single_holder_wins_whatever_the_seed() {
    let line = entries(&[0, 0, 4, 0]);
    for seed in [0u128, 1, 2, 3, 4, 5, 1_000_003, u128::MAX - 1, u128::MAX] {
        assert_eq!(select_winner(&line, seed), Ok(2));
    }
    let line = entries(&[1]);
    for seed in [0u128, 1, 77, u128::MAX] {
        assert_eq!(select_winner(&line, seed), Ok(0));
    }
}

#[test]
fn nobody_wins_without_tickets() {
    for seed in [0u128, 1, u128::MAX] {
        assert_eq!(select_winner(&entries(&[]), seed), Err(PoolError::NoEligibleParticipants));
        assert_eq!(select_winner(&entries(&[0]), seed), Err(PoolError::NoEligibleParticipants));
        assert_eq!(
            select_winner(&entries(&[0, -3, 0]), seed),
            Err(PoolError::NoEligibleParticipants)
        );
    }
}

#[test]
fn the_longest_line_is_drawn_from() {
    let line = entries(&[i128::MAX - 1, 1]);
    assert_eq!(select_winner(&line, (i128::MAX - 2) as u128), Ok(0));
    assert_eq!(select_winner(&line, (i128::MAX - 1) as u128), Ok(1));
    assert_eq!(select_winner(&line, i128::MAX as u128), Ok(0));
}

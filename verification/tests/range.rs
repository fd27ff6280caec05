use muid_search::corpus::CorpusEntry;
use muid_search::range::{
    mine_step, mine_using_ranges, mine_values, step_count, steps_fit, to_be_bytes,
    write_candidate, MinerState, RangeMiner, STEP_SIZE,
};
use muid_search::table::{compile, CompiledTable};

fn table_of(labels: &[(&str, u8, u8)], difficulty: usize) -> CompiledTable {
    let mut corpus = Vec::new();
    for (label, l1, l2) in labels {
        corpus.push(CorpusEntry::new(label, *l1, *l2).unwrap());
    }
    compile(&corpus, difficulty).unwrap()
}

fn candidate(val: u128) -> String {
    let mut dest = vec![0u8; 32];
    write_candidate(val, &mut dest);
    String::from_utf8(dest).unwrap()
}

fn keys(findings: &[muid_search::matcher::Finding]) -> Vec<String> {
    findings.iter().map(|f| f.key().to_string()).collect()
}

#[test]
fn step_size_is_two_to_the_twenty() {
    assert_eq!(STEP_SIZE, 1024 * 1024);
}

#[test]
fn bytes_come_highest_first() {
    assert_eq!(to_be_bytes(0), [0u8; 16]);
    assert_eq!(to_be_bytes(1), [0, 0, 0, 0, 0, 0, 0, 0, 0, 0, 0, 0, 0, 0, 0, 1]);
    assert_eq!(to_be_bytes(0x0102), [0, 0, 0, 0, 0, 0, 0, 0, 0, 0, 0, 0, 0, 0, 1, 2]);
    assert_eq!(to_be_bytes(u128::MAX), [0xff; 16]);
    let v: u128 = 0x0123456789abcdef_fedcba9876543210;
    assert_eq!(to_be_bytes(v), v.to_be_bytes());
}

#[test]
fn candidate_is_the_number_in_32_digits() {
    assert_eq!(candidate(0), "00000000000000000000000000000000");
    assert_eq!(candidate(1), "00000000000000000000000000000001");
    assert_eq!(candidate(61737), "0000000000000000000000000000f129");
    assert_eq!(candidate(u128::MAX), "ffffffffffffffffffffffffffffffff");
    assert_eq!(
        candidate(0x0123456789abcdef_fedcba9876543210),
        "0123456789abcdeffedcba9876543210"
    );
}

#[test]
fn candidate_overwrites_the_buffer() {
    let mut dest = vec![b'x'; 32];
    write_candidate(255, &mut dest);
    assert_eq!(dest, b"000000000000000000000000000000ff");
    write_candidate(256, &mut dest);
    assert_eq!(dest, b"00000000000000000000000000000100");
}

#[test]
fn count_of_steps() {
    assert_eq!(step_count(STEP_SIZE), 1u128 << 108);
    assert_eq!(step_count(2), 1u128 << 127);
    assert_eq!(step_count(3), u128::MAX / 3);
    assert_eq!(step_count(u128::MAX), 1);
    assert_eq!(step_count(1u128 << 127), 2);
    assert_eq!(step_count((1u128 << 127) + 1), 1);
}

#[test]
fn values_are_mined_in_rising_order() {
    let t = table_of(&[("oo", 1, 1)], 2);
    let found = mine_values(&t, 0, 2048);
    assert_eq!(
        keys(&found),
        vec![candidate(392), candidate(1692), candidate(1705), candidate(1753)]
    );
    assert_eq!(found[0].hash(), "0018cf5969e16ecfbda67f7dea3c1d8d");
    assert_eq!(found[0].pretty_name(), "o-o");
}

#[test]
fn values_stop_before_the_end() {
    let t = table_of(&[("oo", 1, 1)], 2);
    assert_eq!(keys(&mine_values(&t, 392, 1)), vec![candidate(392)]);
    assert!(mine_values(&t, 392, 0).is_empty());
    assert!(mine_values(&t, 393, 1299).is_empty());
    assert_eq!(keys(&mine_values(&t, 393, 1300)), vec![candidate(1692)]);
}

#[test]
fn highest_values_can_be_mined() {
    let t = table_of(&[("", 0, 0)], 0);
    let found = mine_values(&t, u128::MAX - 2, 3);
    assert_eq!(
        keys(&found),
        vec![candidate(u128::MAX - 2), candidate(u128::MAX - 1), candidate(u128::MAX)]
    );
    let last = mine_step(&t, (1u128 << 126) - 1, 4);
    assert_eq!(last.len(), 4);
    assert_eq!(last[3].key(), "ffffffffffffffffffffffffffffffff");
}

#[test]
fn step_visits_its_own_values() {
    let t = table_of(&[("", 0, 0)], 0);
    let found = mine_step(&t, 3, 5);
    assert_eq!(
        keys(&found),
        vec![candidate(15), candidate(16), candidate(17), candidate(18), candidate(19)]
    );
    assert!(mine_step(&t, 3, 0).is_empty());
}

#[test]
fn steps_together_visit_every_value_once() {
    let t = table_of(&[("", 0, 0)], 0);
    for size in [1u128, 3, 7] {
        for a in 0..4u128 {
            for b in a..6u128 {
                let mut seen = Vec::new();
                for step in (a..b).rev() {
                    seen.extend(keys(&mine_step(&t, step, size)));
                }
                seen.sort();
                let want: Vec<String> = (a * size..b * size).map(candidate).collect();
                assert_eq!(seen, want);
            }
        }
    }
}

#[test]
fn range_of_steps_is_the_steps_in_order() {
    let t = table_of(&[("oo", 1, 1)], 2);
    let whole = mine_using_ranges(&t, 0, 8, 256);
    let mut by_step = Vec::new();
    for step in 0..8 {
        by_step.extend(keys(&mine_step(&t, step, 256)));
    }
    assert_eq!(keys(&whole), by_step);
    assert_eq!(
        keys(&whole),
        vec![candidate(392), candidate(1692), candidate(1705), candidate(1753)]
    );
}

#[test]
fn range_starts_at_the_start_step() {
    let t = table_of(&[("oo", 1, 1)], 2);
    assert_eq!(keys(&mine_using_ranges(&t, 1, 2, 256)), vec![candidate(392)]);
    assert!(mine_using_ranges(&t, 2, 6, 256).is_empty());
    assert!(mine_using_ranges(&t, 3, 3, 256).is_empty());
    assert_eq!(
        keys(&mine_using_ranges(&t, 6, 7, 256)),
        vec![candidate(1692), candidate(1705), candidate(1753)]
    );
}

#[test]
fn range_finds_the_label_at_difficulty_four() {
    let t = table_of(&[("ozlm", 2, 2), ("wolf", 2, 2)], 4);
    let found = mine_using_ranges(&t, 0, 4, 65536);
    assert_eq!(keys(&found), vec![candidate(61737), candidate(230998)]);
    assert_eq!(found[0].pretty_name(), "oz-lm");
    assert_eq!(found[0].code(), "0213");
    assert_eq!(found[1].hash(), "0213eb402c117a07b455956d3d7cddd3");
}

#[test]
fn steps_fit_up_to_the_last_number() {
    assert!(steps_fit(0, 0));
    assert!(steps_fit(u128::MAX, 0));
    assert!(steps_fit(u128::MAX, 1));
    assert!(steps_fit(1u128 << 108, STEP_SIZE));
    assert!(!steps_fit((1u128 << 108) + 1, STEP_SIZE));
    assert!(steps_fit(1u128 << 127, 2));
    assert!(!steps_fit((1u128 << 127) + 1, 2));
    assert!(steps_fit(u128::MAX / 3, 3));
    assert!(!steps_fit(u128::MAX / 3 + 1, 3));
    assert!(steps_fit(1, u128::MAX));
    assert!(!steps_fit(2, u128::MAX));
}

#[test]
fn miner_needs_a_range_that_fits() {
    assert!(RangeMiner::new(0, 0, STEP_SIZE).is_some());
    assert!(RangeMiner::new(5, 5, STEP_SIZE).is_some());
    assert!(RangeMiner::new(0, 1u128 << 108, STEP_SIZE).is_some());
    assert!(RangeMiner::new(6, 5, STEP_SIZE).is_none());
    assert!(RangeMiner::new(0, (1u128 << 108) + 1, STEP_SIZE).is_none());
    assert!(RangeMiner::new(0, u128::MAX, 2).is_none());
}

#[test]
fn miner_hands_out_each_step_once_in_order() {
    let mut miner = RangeMiner::new(3, 7, 10).unwrap();
    assert_eq!(miner.state(), MinerState::Idle);
    assert_eq!(miner.next_step(), 3);
    miner.start();
    assert_eq!(miner.state(), MinerState::Running);
    let mut steps = Vec::new();
    while let Some(step) = miner.claim_step() {
        assert_eq!(miner.next_step(), step + 1);
        steps.push(step);
    }
    assert_eq!(steps, vec![3, 4, 5, 6]);
    assert_eq!(miner.state(), MinerState::Exhausted);
    assert_eq!(miner.claim_step(), None);
    assert_eq!(miner.state(), MinerState::Exhausted);
    assert_eq!(miner.next_step(), 7);
}

#[test]
fn miner_that_was_not_started_hands_out_nothing() {
    let mut miner = RangeMiner::new(3, 7, 10).unwrap();
    assert_eq!(miner.claim_step(), None);
    assert_eq!(miner.state(), MinerState::Idle);
    assert_eq!(miner.next_step(), 3);
}

#[test]
fn miner_of_an_empty_range_is_exhausted_at_once() {
    let mut miner = RangeMiner::new(4, 4, 10).unwrap();
    miner.start();
    assert_eq!(miner.state(), MinerState::Exhausted);
    assert_eq!(miner.claim_step(), None);
}

#[test]
fn miner_runs_until_the_last_step_is_asked_for_again() {
    let mut miner = RangeMiner::new(0, 1, 10).unwrap();
    miner.start();
    assert_eq!(miner.claim_step(), Some(0));
    assert_eq!(miner.state(), MinerState::Running);
    assert_eq!(miner.claim_step(), None);
    assert_eq!(miner.state(), MinerState::Exhausted);
}

#[test]
fn miner_can_be_stopped() {
    let mut miner = RangeMiner::new(0, 9, 10).unwrap();
    miner.start();
    assert_eq!(miner.claim_step(), Some(0));
    miner.interrupt();
    assert_eq!(miner.state(), MinerState::Interrupted);
    assert_eq!(miner.claim_step(), None);
    assert_eq!(miner.state(), MinerState::Interrupted);
    assert_eq!(miner.next_step(), 1);
    miner.start();
    assert_eq!(miner.state(), MinerState::Interrupted);

    let mut idle = RangeMiner::new(0, 9, 10).unwrap();
    idle.interrupt();
    assert_eq!(idle.state(), MinerState::Interrupted);

    let mut done = RangeMiner::new(2, 2, 10).unwrap();
    done.start();
    done.interrupt();
    assert_eq!(done.state(), MinerState::Exhausted);
}

#[test]
fn started_twice_is_started_once() {
    let mut miner = RangeMiner::new(0, 2, 10).unwrap();
    miner.start();
    assert_eq!(miner.claim_step(), Some(0));
    miner.start();
    assert_eq!(miner.state(), MinerState::Running);
    assert_eq!(miner.claim_step(), Some(1));
}

#[test]
fn miner_mines_step_by_step() {
    let t = table_of(&[("oo", 1, 1)], 2);
    let mut miner = RangeMiner::new(0, 8, 256).unwrap();
    miner.start();
    let mut found = Vec::new();
    let mut steps = Vec::new();
    while let Some((step, more)) = miner.mine_next(&t) {
        steps.push(step);
        found.extend(keys(&more));
    }
    assert_eq!(steps, vec![0, 1, 2, 3, 4, 5, 6, 7]);
    assert_eq!(
        found,
        vec![candidate(392), candidate(1692), candidate(1705), candidate(1753)]
    );
    assert_eq!(miner.state(), MinerState::Exhausted);
}

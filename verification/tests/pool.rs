use muid_search::corpus::CorpusEntry;
use muid_search::matcher::{bhash, Finding};
use muid_search::pool::{
    fills_for, mine_pool, mine_random_pool, mine_using_rng, search_pool, POOL_BYTES, POOL_SIZE,
    WINDOW_LEN,
};
use muid_search::table::{compile, CompiledTable};

const DIGITS: &str = "27cac5503836765cd10751d27ab4a6e17d7a80d4c948430a5a81513973f9b51e\
187897ce0afcf20b50ba2b37dca84a951b7046f29ed5ab94f010619f69d6e189";

fn table_of(labels: &[(&str, u8, u8)], difficulty: usize) -> CompiledTable {
    let mut corpus = Vec::new();
    for (label, l1, l2) in labels {
        corpus.push(CorpusEntry::new(label, *l1, *l2).unwrap());
    }
    compile(&corpus, difficulty).unwrap()
}

fn keys(findings: &[Finding]) -> Vec<String> {
    findings.iter().map(|f| f.key().to_string()).collect()
}

#[test]
fn pool_sizes() {
    assert_eq!(POOL_SIZE, 256 * 128);
    assert_eq!(POOL_BYTES, 256 * 128 * 16);
    assert_eq!(WINDOW_LEN, 32);
}

#[test]
fn zero_tries_stands_for_no_limit() {
    assert_eq!(fills_for(0), u128::MAX);
    assert_eq!(fills_for(1), 1);
    assert_eq!(fills_for(17), 17);
    assert_eq!(fills_for(u128::MAX), u128::MAX);
}

#[test]
fn every_window_but_the_last_is_a_candidate() {
    let t = table_of(&[("", 0, 0)], 0);
    let found = search_pool(&t, DIGITS.as_bytes());
    assert_eq!(DIGITS.len(), 128);
    assert_eq!(found.len(), 128 - 32);
    for (i, f) in found.iter().enumerate() {
        assert_eq!(f.key(), &DIGITS[i..i + 32]);
        assert_eq!(f.hash(), bhash(DIGITS[i..i + 32].as_bytes()));
    }
}

#[test]
fn neighbouring_candidates_shift_by_one_digit() {
    let t = table_of(&[("", 0, 0)], 0);
    let found = keys(&search_pool(&t, DIGITS.as_bytes()));
    for i in 0..found.len() - 1 {
        assert_eq!(found[i][1..], found[i + 1][..31]);
        assert_eq!(found[i + 1].as_bytes()[31], DIGITS.as_bytes()[i + 32]);
    }
}

#[test]
fn short_digits_give_no_candidate() {
    let t = table_of(&[("", 0, 0)], 0);
    assert!(search_pool(&t, b"").is_empty());
    assert!(search_pool(&t, &DIGITS.as_bytes()[..31]).is_empty());
    assert!(search_pool(&t, &DIGITS.as_bytes()[..32]).is_empty());
    assert_eq!(keys(&search_pool(&t, &DIGITS.as_bytes()[..33])), vec![DIGITS[..32].to_string()]);
}

#[test]
fn digits_are_searched_for_labels() {
    let t = table_of(&[("fm", 1, 1), ("zz", 2, 0)], 2);
    let found = search_pool(&t, DIGITS.as_bytes());
    assert_eq!(
        keys(&found),
        vec![
            "ac5503836765cd10751d27ab4a6e17d7",
            "7d7a80d4c948430a5a81513973f9b51e",
            "7a80d4c948430a5a81513973f9b51e18",
            "d4c948430a5a81513973f9b51e187897",
            "1513973f9b51e187897ce0afcf20b50b",
            "3f9b51e187897ce0afcf20b50ba2b37d",
        ]
    );
    assert_eq!(found[0].pretty_name(), "zz-");
    assert_eq!(found[1].pretty_name(), "f-m");
    assert_eq!(found[1].hash(), "f310a7e324e60a785dda61d1ee030e29");
}

#[test]
fn last_window_is_not_searched() {
    let t = table_of(&[("sc", 1, 1)], 2);
    assert_eq!(bhash(&DIGITS.as_bytes()[96..]), "5c34b378d2bac762f1d93be6de6f7dd1");
    assert!(search_pool(&t, DIGITS.as_bytes()).is_empty());
}

#[test]
fn pool_is_written_in_hex_and_searched() {
    let t = table_of(&[("", 0, 0)], 0);
    let pool = hex::decode(DIGITS).unwrap();
    let found = mine_pool(&t, &pool);
    assert_eq!(found.len(), 96);
    assert_eq!(found[0].key(), &DIGITS[0..32]);
    assert_eq!(found[95].key(), &DIGITS[95..127]);
    let labelled = table_of(&[("fm", 1, 1)], 2);
    assert_eq!(mine_pool(&labelled, &pool).len(), 3);
}

#[test]
fn random_pool_is_filled_and_searched() {
    let t = table_of(&[("", 0, 0)], 0);
    let mut pool = vec![0u8; 64];
    let found = mine_random_pool(&t, &mut pool);
    assert_eq!(pool.len(), 64);
    assert_ne!(pool, vec![0u8; 64]);
    let digits = hex::encode(&pool);
    assert_eq!(found.len(), 96);
    for (i, f) in found.iter().enumerate() {
        assert_eq!(f.key(), &digits[i..i + 32]);
        assert_eq!(f.hash(), bhash(f.key().as_bytes()));
    }
}

#[test]
fn random_pools_differ() {
    let t = table_of(&[], 2);
    let mut a = vec![0u8; 64];
    let mut b = vec![0u8; 64];
    mine_random_pool(&t, &mut a);
    mine_random_pool(&t, &mut b);
    assert_ne!(a, b);
}

#[test]
fn random_mining_reports_only_real_matches() {
    let t = table_of(&[("oo", 1, 1), ("ff", 2, 0)], 2);
    let found = mine_using_rng(&t, 1);
    assert!(!found.is_empty());
    assert!(found.iter().any(|f| f.key() != "00000000000000000000000000000000"));
    for f in &found {
        assert_eq!(f.key().len(), 32);
        assert!(f.key().bytes().all(|b| b.is_ascii_digit() || (b'a'..=b'f').contains(&b)));
        assert_eq!(f.hash(), bhash(f.key().as_bytes()));
        assert!(f.code() == "00" || f.code() == "ff");
        assert_eq!(f.code(), &f.hash()[..2]);
        let want = if f.code() == "00" { "o-o" } else { "ff-" };
        assert_eq!(f.pretty_name(), want);
    }
}

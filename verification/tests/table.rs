use muid_search::corpus::{CorpusEntry, LabelShape};
use muid_search::table::{compile, CompiledTable, DifficultyError, MAX_DIFFICULTY};

fn entry(label: &str, l1: u8, l2: u8) -> CorpusEntry {
    CorpusEntry::new(label, l1, l2).unwrap()
}

fn table(entries: Vec<CorpusEntry>, difficulty: usize) -> CompiledTable {
    compile(&entries, difficulty).unwrap()
}

#[test]
fn entry_needs_a_shape_that_fits() {
    assert!(CorpusEntry::new("ozlm", 2, 2).is_some());
    assert!(CorpusEntry::new("ozlm", 4, 0).is_some());
    assert!(CorpusEntry::new("ozlm", 0, 4).is_some());
    assert!(CorpusEntry::new("", 0, 0).is_some());
    assert!(CorpusEntry::new("ozlm", 2, 1).is_none());
    assert!(CorpusEntry::new("ozlm", 3, 2).is_none());
    assert!(CorpusEntry::new("ozlm", 255, 255).is_none());
}

#[test]
fn entry_counts_characters() {
    assert!(CorpusEntry::new("\u{e9}t\u{e9}", 1, 2).is_some());
    assert!(CorpusEntry::new("\u{e9}t\u{e9}", 2, 3).is_none());
}

#[test]
fn entry_gives_back_label_and_shape() {
    let e = entry("beef", 1, 3);
    assert_eq!(e.label(), "beef");
    assert_eq!(e.shape(), LabelShape { l1: 1, l2: 3 });
}

#[test]
fn odd_difficulty_is_refused() {
    let corpus = vec![entry("ozlm", 2, 2)];
    assert_eq!(compile(&corpus, 5).err(), Some(DifficultyError::Odd));
    assert_eq!(compile(&corpus, 1).err(), Some(DifficultyError::Odd));
    assert_eq!(compile(&Vec::new(), 3).err(), Some(DifficultyError::Odd));
    assert_eq!(compile(&corpus, 65).err(), Some(DifficultyError::Odd));
}

#[test]
fn difficulty_beyond_the_digest_is_refused() {
    let corpus = vec![entry("ozlm", 2, 2)];
    assert_eq!(compile(&corpus, 66).err(), Some(DifficultyError::TooLarge));
    assert!(compile(&corpus, MAX_DIFFICULTY).is_ok());
}

#[test]
fn table_knows_its_difficulty() {
    assert_eq!(table(vec![entry("ozlm", 2, 2)], 4).difficulty(), 4);
    assert_eq!(table(Vec::new(), 12).difficulty(), 12);
    assert_eq!(table(Vec::new(), 0).difficulty(), 0);
}

#[test]
fn label_is_found_by_the_bytes_it_spells() {
    let t = table(vec![entry("ozlm", 2, 2)], 4);
    assert_eq!(t.len(), 1);
    assert_eq!(t.lookup(&[0x02, 0x13]), Some(LabelShape { l1: 2, l2: 2 }));
    assert_eq!(t.lookup(&[0x02, 0x14]), None);
    assert_eq!(t.lookup(&[0x13, 0x02]), None);
}

#[test]
fn key_of_another_length_is_no_match() {
    let t = table(vec![entry("ozlm", 2, 2)], 4);
    assert_eq!(t.lookup(&[]), None);
    assert_eq!(t.lookup(&[0x02]), None);
    assert_eq!(t.lookup(&[0x02, 0x13, 0x00]), None);
}

#[test]
fn labels_of_another_length_are_left_out() {
    let corpus = vec![
        entry("oz", 1, 1),
        entry("ozlm", 2, 2),
        entry("ozlmys", 3, 3),
        entry("ozl", 1, 2),
    ];
    let t = table(corpus, 4);
    assert_eq!(t.len(), 1);
    assert_eq!(t.lookup(&[0x02, 0x13]), Some(LabelShape { l1: 2, l2: 2 }));
    assert_eq!(t.lookup(&[0x02]), None);
    assert_eq!(t.lookup(&[0x02, 0x13, 0x45]), None);
}

#[test]
fn labels_that_do_not_decode_are_left_out() {
    let corpus = vec![
        entry("wolf", 2, 2),
        entry("beef", 2, 2),
        entry("BEAD", 2, 2),
        entry("be-d", 1, 3),
        entry("cafe", 1, 3),
    ];
    let t = table(corpus, 4);
    assert_eq!(t.len(), 2);
    assert_eq!(t.lookup(&[0xbe, 0xef]), Some(LabelShape { l1: 2, l2: 2 }));
    assert_eq!(t.lookup(&[0xca, 0xfe]), Some(LabelShape { l1: 1, l2: 3 }));
    assert_eq!(t.lookup(&[0xbe, 0xad]), None);
}

#[test]
fn one_bad_label_does_not_stop_the_rest() {
    let corpus = vec![entry("xq", 1, 1), entry("xx", 1, 1), entry("ab", 1, 1)];
    let t = table(corpus, 2);
    assert_eq!(t.len(), 2);
    assert_eq!(t.lookup(&[0x88]), Some(LabelShape { l1: 1, l2: 1 }));
    assert_eq!(t.lookup(&[0xab]), Some(LabelShape { l1: 1, l2: 1 }));
}

#[test]
fn corpus_of_bad_labels_gives_an_empty_table() {
    let t = table(vec![entry("xq", 1, 1), entry("q", 1, 0), entry("zzzz", 2, 2)], 2);
    assert_eq!(t.len(), 0);
    for b in 0..=255u8 {
        assert_eq!(t.lookup(&[b]), None);
    }
}

#[test]
fn shapes_add_up_to_the_difficulty() {
    let corpus = vec![
        entry("dead", 1, 3),
        entry("beef", 4, 0),
        entry("cafe", 0, 4),
        entry("face", 2, 2),
        entry("ab", 1, 1),
        entry("abcdef", 3, 3),
    ];
    let t = table(corpus, 4);
    assert_eq!(t.len(), 4);
    for key in [[0xde, 0xad], [0xbe, 0xef], [0xca, 0xfe], [0xfa, 0xce]] {
        let shape = t.lookup(&key).unwrap();
        assert_eq!(shape.l1 as usize + shape.l2 as usize, 4);
    }
}

#[test]
fn compiling_twice_gives_the_same_table() {
    let make = || {
        vec![
            entry("dead", 1, 3),
            entry("deaf", 2, 2),
            entry("wolf", 2, 2),
            entry("ozlm", 3, 1),
            entry("oo", 1, 1),
        ]
    };
    let a = table(make(), 4);
    let b = table(make(), 4);
    assert_eq!(a.len(), b.len());
    assert_eq!(a.difficulty(), b.difficulty());
    for high in 0..=255u8 {
        for low in 0..=255u8 {
            assert_eq!(a.lookup(&[high, low]), b.lookup(&[high, low]));
        }
    }
}

#[test]
fn order_of_the_corpus_does_not_matter() {
    let a = table(vec![entry("dead", 1, 3), entry("beef", 2, 2), entry("cafe", 3, 1)], 4);
    let b = table(vec![entry("cafe", 3, 1), entry("dead", 1, 3), entry("beef", 2, 2)], 4);
    for key in [[0xde, 0xad], [0xbe, 0xef], [0xca, 0xfe], [0x00, 0x00]] {
        assert_eq!(a.lookup(&key), b.lookup(&key));
    }
}

#[test]
fn label_that_sorts_first_gives_the_shape() {
    let first = LabelShape { l1: 2, l2: 0 };
    let labels = [("oo", 0, 2), ("0o", 1, 1), ("00", 2, 0), ("o0", 1, 1)];
    for skip in 0..4 {
        let mut corpus = Vec::new();
        for k in 0..4 {
            let (label, l1, l2) = labels[(k + skip) % 4];
            corpus.push(entry(label, l1, l2));
        }
        let t = table(corpus, 2);
        assert_eq!(t.len(), 1);
        assert_eq!(t.lookup(&[0x00]), Some(first));
    }
}

#[test]
fn of_equal_labels_the_earlier_gives_the_shape() {
    let t = table(vec![entry("ab", 2, 0), entry("ab", 0, 2)], 2);
    assert_eq!(t.lookup(&[0xab]), Some(LabelShape { l1: 2, l2: 0 }));
}

#[test]
fn many_keys_are_all_found() {
    let mut corpus = Vec::new();
    for b in (0..=255u8).rev() {
        let label = muid_search::codec::to_readable_hex(&format!("{:02x}", b));
        corpus.push(entry(&label, (b % 3) as u8, 2 - (b % 3) as u8));
    }
    let t = table(corpus, 2);
    assert_eq!(t.len(), 256);
    for b in 0..=255u8 {
        assert_eq!(t.lookup(&[b]), Some(LabelShape { l1: b % 3, l2: 2 - b % 3 }));
    }
}

#[test]
fn difficulty_zero_matches_the_empty_prefix() {
    let t = table(vec![entry("", 0, 0), entry("ab", 1, 1)], 0);
    assert_eq!(t.len(), 1);
    assert_eq!(t.lookup(&[]), Some(LabelShape { l1: 0, l2: 0 }));
    assert_eq!(t.lookup(&[0xab]), None);
}

#[test]
fn longest_labels_compile() {
    let label = "olzmyshtxgabcdefolzmyshtxgabcdefolzmyshtxgabcdefolzmyshtxgabcdef";
    let t = table(vec![entry(label, 32, 32)], 64);
    let key: Vec<u8> = hex::decode("0123456789abcdef".repeat(4)).unwrap();
    assert_eq!(t.lookup(&key), Some(LabelShape { l1: 32, l2: 32 }));
}

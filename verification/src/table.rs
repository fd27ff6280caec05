//! The compiled table: from the first bytes of a digest to the shape of the
//! label that spells them.

use crate::codec::decode_hex;
use crate::corpus::{
    claims, compiled, corpus_model, decides, decides_among, eligible, entry_key,
    lemma_decides_first, lemma_decides_step, lemma_decides_unique, lemma_label_codes,
    CorpusEntry, EntryModel, LabelShape,
};
use crate::hexcode::ascii_codes;
use crate::order::{compare_bytes, lemma_lex_irreflexive, lemma_lex_transitive, lex_lt, Sorts};
use vstd::prelude::*;
use vstd::string::StrSliceExecFns;

verus! {

/// The largest difficulty: a digest has 32 bytes, 64 hexadecimal digits.
pub const MAX_DIFFICULTY: usize = 64;

/// Why a difficulty is refused.
#[derive(Clone, Copy, Debug, PartialEq, Eq)]
pub enum DifficultyError {
    /// The difficulty is odd: a prefix is a whole number of bytes.
    Odd,
    /// The difficulty is even and asks for more digits than a digest has.
    TooLarge,
}

/// One key of the table, with the label that spells it and its shape.
struct Slot {
    key: Vec<u8>,
    label: Vec<u8>,
    shape: LabelShape,
}

/// The table for one difficulty. It is made once, by `compile`, and only
/// read after that.
pub struct CompiledTable {
    difficulty: usize,
    slots: Vec<Slot>,
}

/// Whether the keys of the slots come in strictly rising dictionary order.
spec fn slots_ordered(slots: Seq<Slot>) -> bool {
    forall|i: int, j: int|
        0 <= i < j < slots.len() ==> lex_lt(#[trigger] slots[i].key@, #[trigger] slots[j].key@)
}

/// Whether slot `i` holds `key`.
spec fn holds_key(slots: Seq<Slot>, key: Seq<u8>, i: int) -> bool {
    0 <= i < slots.len() && slots[i].key@ == key
}

/// The keys of the slots, each with its shape.
spec fn slots_map(slots: Seq<Slot>) -> Map<Seq<u8>, LabelShape> {
    Map::new(
        |key: Seq<u8>| exists|i: int| holds_key(slots, key, i),
        |key: Seq<u8>| slots[choose|i: int| holds_key(slots, key, i)].shape,
    )
}

/// In ordered slots a key stands in one place at most.
proof fn lemma_one_place(slots: Seq<Slot>, key: Seq<u8>, i: int, j: int)
    requires
        slots_ordered(slots),
        holds_key(slots, key, i),
        holds_key(slots, key, j),
    ensures
        i == j,
{
    lemma_lex_irreflexive(key);
}

/// Where `key` stands in the ordered slots, or where it would go.
fn find_slot(slots: &Vec<Slot>, key: &[u8]) -> (r: (bool, usize))
    requires
        slots_ordered(slots@),
    ensures
        r.1 <= slots@.len(),
        r.0 ==> holds_key(slots@, key@, r.1 as int),
        !r.0 ==> forall|i: int| !holds_key(slots@, key@, i),
        !r.0 ==> forall|i: int| 0 <= i < r.1 ==> lex_lt(#[trigger] slots@[i].key@, key@),
        !r.0 ==> forall|i: int| r.1 <= i < slots@.len() ==> lex_lt(key@, #[trigger] slots@[i].key@),
{
    let mut low: usize = 0;
    let mut high: usize = slots.len();
    while low < high
        invariant
            low <= high <= slots@.len(),
            slots_ordered(slots@),
            forall|i: int| 0 <= i < low ==> lex_lt(#[trigger] slots@[i].key@, key@),
            forall|i: int| high <= i < slots@.len() ==> lex_lt(key@, #[trigger] slots@[i].key@),
        decreases high - low,
    {
        let mid: usize = low + (high - low) / 2;
        match compare_bytes(slots[mid].key.as_slice(), key) {
            Sorts::Same => {
                return (true, mid);
            },
            Sorts::Before => {
                assert forall|i: int| 0 <= i < mid + 1 implies lex_lt(
                    #[trigger] slots@[i].key@,
                    key@,
                ) by {
                    if i < mid {
                        lemma_lex_transitive(slots@[i].key@, slots@[mid as int].key@, key@);
                    }
                }
                low = mid + 1;
            },
            Sorts::After => {
                assert forall|i: int| mid <= i < slots@.len() implies lex_lt(
                    key@,
                    #[trigger] slots@[i].key@,
                ) by {
                    if mid < i {
                        lemma_lex_transitive(key@, slots@[mid as int].key@, slots@[i].key@);
                    }
                }
                high = mid;
            },
        }
    }
    assert forall|i: int| !holds_key(slots@, key@, i) by {
        lemma_lex_irreflexive(key@);
    }
    (false, low)
}

impl View for CompiledTable {
    type V = Map<Seq<u8>, LabelShape>;

    closed spec fn view(&self) -> Map<Seq<u8>, LabelShape> {
        slots_map(self.slots@)
    }
}

impl CompiledTable {
    #[verifier::type_invariant]
    spec fn sound(&self) -> bool {
        &&& self.difficulty % 2 == 0
        &&& self.difficulty <= MAX_DIFFICULTY
        &&& slots_ordered(self.slots@)
        &&& forall|i: int|
            0 <= i < self.slots@.len() ==> {
                &&& (#[trigger] self.slots@[i]).key@.len() == self.difficulty / 2
                &&& self.slots@[i].shape.l1 + self.slots@[i].shape.l2 == self.difficulty
            }
    }

    /// The difficulty that the table was compiled for.
    pub closed spec fn spec_difficulty(&self) -> usize {
        self.difficulty
    }

    /// The difficulty that the table was compiled for: even, and at most 64.
    #[verifier::when_used_as_spec(spec_difficulty)]
    pub fn difficulty(&self) -> (r: usize)
        ensures
            r == self.spec_difficulty(),
            r % 2 == 0,
            r <= MAX_DIFFICULTY,
    {
        proof {
            use_type_invariant(self);
        }
        self.difficulty
    }

    /// The number of keys.
    pub fn len(&self) -> (r: usize)
        ensures
            r == self@.dom().len(),
            self@.dom().finite(),
    {
        proof {
            use_type_invariant(self);
            lemma_slots_count(self.slots@);
        }
        self.slots.len()
    }

    /// The shape that `key` maps to, if the table holds the key. The key
    /// then has half as many bytes as the difficulty says, and the two
    /// lengths of the shape add up to the difficulty.
    pub fn lookup(&self, key: &[u8]) -> (r: Option<LabelShape>)
        ensures
            r == (if self@.contains_key(key@) {
                Some(self@[key@])
            } else {
                None
            }),
            r matches Some(shape) ==> key@.len() == self.spec_difficulty() / 2 && shape.l1
                + shape.l2 == self.spec_difficulty(),
    {
        proof {
            use_type_invariant(self);
        }
        let (found, at) = find_slot(&self.slots, key);
        if found {
            proof {
                let chosen = choose|i: int| holds_key(self.slots@, key@, i);
                lemma_one_place(self.slots@, key@, chosen, at as int);
            }
            Some(self.slots[at].shape)
        } else {
            None
        }
    }
}

/// Ordered slots hold as many keys as there are slots.
proof fn lemma_slots_count(slots: Seq<Slot>)
    requires
        slots_ordered(slots),
    ensures
        slots_map(slots).dom().finite(),
        slots_map(slots).dom().len() == slots.len(),
    decreases slots.len(),
{
    let dom = slots_map(slots).dom();
    if slots.len() == 0 {
        assert(dom =~= Set::<Seq<u8>>::empty());
    } else {
        let front = slots.drop_last();
        let last = slots.last();
        assert forall|i: int, j: int| 0 <= i < j < front.len() implies lex_lt(
            #[trigger] front[i].key@,
            #[trigger] front[j].key@,
        ) by {
            assert(front[i] == slots[i] && front[j] == slots[j]);
        }
        lemma_slots_count(front);
        let before = slots_map(front).dom();
        assert(!before.contains(last.key@)) by {
            if before.contains(last.key@) {
                let i = choose|i: int| holds_key(front, last.key@, i);
                assert(front[i] == slots[i]);
                assert(holds_key(slots, last.key@, i));
                lemma_one_place(slots, last.key@, i, slots.len() - 1);
            }
        }
        assert(dom =~= before.insert(last.key@)) by {
            assert forall|k: Seq<u8>| dom.contains(k) implies before.insert(last.key@).contains(
                k,
            ) by {
                let i = choose|i: int| holds_key(slots, k, i);
                if i < front.len() {
                    assert(front[i] == slots[i]);
                    assert(holds_key(front, k, i));
                }
            }
            assert forall|k: Seq<u8>| before.insert(last.key@).contains(k) implies dom.contains(
                k,
            ) by {
                if k == last.key@ {
                    assert(holds_key(slots, k, slots.len() - 1));
                } else {
                    let i = choose|i: int| holds_key(front, k, i);
                    assert(front[i] == slots[i]);
                    assert(holds_key(slots, k, i));
                }
            }
        }
    }
}

/// Compiling is repeatable: two tables compiled for one difficulty from
/// corpora that hold the same labels and shapes, in the same order, have the
/// same keys with the same shapes.
pub proof fn lemma_compile_repeatable(
    first: CompiledTable,
    second: CompiledTable,
    a: Seq<CorpusEntry>,
    b: Seq<CorpusEntry>,
    n: nat,
)
    requires
        corpus_model(a) == corpus_model(b),
        first@ == compiled(corpus_model(a), n),
        second@ == compiled(corpus_model(b), n),
    ensures
        first@.dom() == second@.dom(),
        forall|key: Seq<u8>| first@.contains_key(key) ==> first@[key] == second@[key],
{
}

/// Whether slot `slot` holds what entry `w` gives it, and `w` decides the
/// key of the slot among the first `m` entries.
spec fn won_by(corpus: Seq<EntryModel>, n: nat, slot: Slot, w: int, m: int) -> bool {
    &&& decides_among(corpus, n, slot.key@, w, m)
    &&& slot.label@ == ascii_codes(corpus[w].label)
    &&& slot.shape == corpus[w].shape
}

/// Whether each slot is won by the entry that `winners` names for it.
spec fn all_won(
    slots: Seq<Slot>,
    winners: Seq<int>,
    corpus: Seq<EntryModel>,
    n: nat,
    m: int,
) -> bool {
    &&& winners.len() == slots.len()
    &&& forall|s: int|
        0 <= s < slots.len() ==> won_by(corpus, n, #[trigger] slots[s], winners[s], m)
}

/// Whether each key that one of the first `m` entries claims has a slot.
spec fn all_covered(slots: Seq<Slot>, corpus: Seq<EntryModel>, n: nat, m: int) -> bool {
    forall|j: int|
        j < m && eligible(#[trigger] corpus[j], n) && 0 <= j ==> exists|s: int|
            holds_key(slots, entry_key(corpus[j]), s)
}

/// Whether the slots are the table of the first `m` entries: ordered, each
/// won by the entry that `winners` names for it, and with a slot for each
/// key that one of those entries claims.
#[verifier::opaque]
spec fn built_from(
    slots: Seq<Slot>,
    winners: Seq<int>,
    corpus: Seq<EntryModel>,
    n: nat,
    m: int,
) -> bool {
    &&& slots_ordered(slots)
    &&& all_won(slots, winners, corpus, n, m)
    &&& all_covered(slots, corpus, n, m)
}

/// Slots built from the whole corpus map as the compiled table does.
proof fn lemma_built_is_compiled(
    slots: Seq<Slot>,
    winners: Seq<int>,
    corpus: Seq<EntryModel>,
    n: nat,
)
    requires
        built_from(slots, winners, corpus, n, corpus.len() as int),
    ensures
        slots_map(slots) == compiled(corpus, n),
{
    reveal(built_from);
    let built = slots_map(slots);
    let wanted = compiled(corpus, n);
    assert forall|key: Seq<u8>| built.dom().contains(key) implies wanted.dom().contains(key) by {
        let s = choose|s: int| holds_key(slots, key, s);
        assert(won_by(corpus, n, slots[s], winners[s], corpus.len() as int));
        assert(claims(corpus, n, key, winners[s]));
    }
    assert forall|key: Seq<u8>| wanted.dom().contains(key) implies built.dom().contains(key) by {
        let i = choose|i: int| claims(corpus, n, key, i);
        assert(eligible(corpus[i], n));
        let s = choose|s: int| holds_key(slots, entry_key(corpus[i]), s);
        assert(holds_key(slots, key, s));
    }
    assert forall|key: Seq<u8>| built.dom().contains(key) implies built[key] == wanted[key] by {
        let s = choose|s: int| holds_key(slots, key, s);
        assert(won_by(corpus, n, slots[s], winners[s], corpus.len() as int));
        assert(decides(corpus, n, key, winners[s]));
        let w = choose|w: int| decides(corpus, n, key, w);
        lemma_decides_unique(corpus, n, key, w, winners[s], corpus.len() as int);
    }
    assert(built =~= wanted);
}

/// A slot stays won by its entry when one more entry is looked at, unless
/// that entry claims the key of the slot and its label comes first.
proof fn lemma_slot_stays(corpus: Seq<EntryModel>, n: nat, slot: Slot, w: int, m: int)
    requires
        0 <= m < corpus.len(),
        won_by(corpus, n, slot, w, m),
        !(claims(corpus, n, slot.key@, m) && lex_lt(ascii_codes(corpus[m].label), slot.label@)),
    ensures
        won_by(corpus, n, slot, w, m + 1),
{
    lemma_decides_step(corpus, n, slot.key@, w, m);
}

/// A slot is won by the next entry when that entry claims the key of the
/// slot and its label comes first.
proof fn lemma_slot_taken(corpus: Seq<EntryModel>, n: nat, old: Slot, w: int, m: int, slot: Slot)
    requires
        0 <= m < corpus.len(),
        won_by(corpus, n, old, w, m),
        claims(corpus, n, old.key@, m),
        lex_lt(ascii_codes(corpus[m].label), old.label@),
        slot.key@ == old.key@,
        slot.label@ == ascii_codes(corpus[m].label),
        slot.shape == corpus[m].shape,
    ensures
        won_by(corpus, n, slot, m, m + 1),
{
    lemma_decides_step(corpus, n, old.key@, w, m);
}

/// A slot for a key that no slot held is won by the entry that brings it.
proof fn lemma_slot_new(slots: Seq<Slot>, corpus: Seq<EntryModel>, n: nat, m: int, slot: Slot)
    requires
        0 <= m < corpus.len(),
        all_covered(slots, corpus, n, m),
        eligible(corpus[m], n),
        forall|i: int| !holds_key(slots, entry_key(corpus[m]), i),
        slot.key@ == entry_key(corpus[m]),
        slot.label@ == ascii_codes(corpus[m].label),
        slot.shape == corpus[m].shape,
    ensures
        won_by(corpus, n, slot, m, m + 1),
{
    let key = entry_key(corpus[m]);
    assert forall|j: int| j < m implies !claims(corpus, n, key, j) by {
        if claims(corpus, n, key, j) {
            assert(eligible(corpus[j], n));
            let s = choose|s: int| holds_key(slots, entry_key(corpus[j]), s);
            assert(holds_key(slots, key, s));
        }
    }
    lemma_decides_first(corpus, n, key, m);
}

/// Slots with the keys they had still have a slot for each key claimed,
/// when the next entry does not count or its key has a slot.
proof fn lemma_covered_same(
    before: Seq<Slot>,
    after: Seq<Slot>,
    corpus: Seq<EntryModel>,
    n: nat,
    m: int,
    at: int,
)
    requires
        0 <= m < corpus.len(),
        all_covered(before, corpus, n, m),
        after.len() == before.len(),
        forall|s: int| 0 <= s < before.len() ==> (#[trigger] after[s]).key@ == before[s].key@,
        eligible(corpus[m], n) ==> holds_key(after, entry_key(corpus[m]), at),
    ensures
        all_covered(after, corpus, n, m + 1),
{
    assert forall|j: int| j < m + 1 && eligible(#[trigger] corpus[j], n) && 0 <= j implies exists|
        s: int,
    | holds_key(after, entry_key(corpus[j]), s) by {
        if j < m {
            let s = choose|s: int| holds_key(before, entry_key(corpus[j]), s);
            assert(after[s].key@ == before[s].key@);
            assert(holds_key(after, entry_key(corpus[j]), s));
        } else {
            assert(holds_key(after, entry_key(corpus[j]), at));
        }
    }
}

/// Slots with the keys they had are still ordered.
proof fn lemma_ordered_same(before: Seq<Slot>, after: Seq<Slot>)
    requires
        slots_ordered(before),
        after.len() == before.len(),
        forall|s: int| 0 <= s < before.len() ==> (#[trigger] after[s]).key@ == before[s].key@,
    ensures
        slots_ordered(after),
{
    assert forall|i: int, j: int| 0 <= i < j < after.len() implies lex_lt(
        #[trigger] after[i].key@,
        #[trigger] after[j].key@,
    ) by {
        assert(after[i].key@ == before[i].key@);
        assert(after[j].key@ == before[j].key@);
        assert(lex_lt(before[i].key@, before[j].key@));
    }
}

/// Looking at an entry that does not count leaves the slots as they are.
proof fn lemma_built_skip(
    slots: Seq<Slot>,
    winners: Seq<int>,
    corpus: Seq<EntryModel>,
    n: nat,
    m: int,
)
    requires
        0 <= m < corpus.len(),
        built_from(slots, winners, corpus, n, m),
        !eligible(corpus[m], n),
    ensures
        built_from(slots, winners, corpus, n, m + 1),
{
    reveal(built_from);
    assert forall|s: int| 0 <= s < slots.len() implies won_by(
        corpus,
        n,
        #[trigger] slots[s],
        winners[s],
        m + 1,
    ) by {
        lemma_slot_stays(corpus, n, slots[s], winners[s], m);
    }
    lemma_covered_same(slots, slots, corpus, n, m, 0);
}

/// An entry whose key has a slot, and whose label does not come before the
/// label of that slot, leaves the slots as they are.
proof fn lemma_built_keep(
    slots: Seq<Slot>,
    winners: Seq<int>,
    corpus: Seq<EntryModel>,
    n: nat,
    m: int,
    at: int,
)
    requires
        0 <= m < corpus.len(),
        built_from(slots, winners, corpus, n, m),
        eligible(corpus[m], n),
        holds_key(slots, entry_key(corpus[m]), at),
        !lex_lt(ascii_codes(corpus[m].label), slots[at].label@),
    ensures
        built_from(slots, winners, corpus, n, m + 1),
{
    reveal(built_from);
    let key = entry_key(corpus[m]);
    assert forall|s: int| 0 <= s < slots.len() implies won_by(
        corpus,
        n,
        #[trigger] slots[s],
        winners[s],
        m + 1,
    ) by {
        if s != at && slots[s].key@ == key {
            lemma_one_place(slots, key, s, at);
        }
        lemma_slot_stays(corpus, n, slots[s], winners[s], m);
    }
    lemma_covered_same(slots, slots, corpus, n, m, at);
}

/// An entry whose key has a slot, and whose label comes before the label of
/// that slot, takes the slot over.
proof fn lemma_built_replace(
    before: Seq<Slot>,
    winners: Seq<int>,
    corpus: Seq<EntryModel>,
    n: nat,
    m: int,
    at: int,
    slot: Slot,
)
    requires
        0 <= m < corpus.len(),
        built_from(before, winners, corpus, n, m),
        eligible(corpus[m], n),
        holds_key(before, entry_key(corpus[m]), at),
        lex_lt(ascii_codes(corpus[m].label), before[at].label@),
        slot.key@ == entry_key(corpus[m]),
        slot.label@ == ascii_codes(corpus[m].label),
        slot.shape == corpus[m].shape,
    ensures
        built_from(before.update(at, slot), winners.update(at, m), corpus, n, m + 1),
{
    reveal(built_from);
    let key = entry_key(corpus[m]);
    let after = before.update(at, slot);
    let named = winners.update(at, m);
    assert forall|s: int| 0 <= s < after.len() implies won_by(
        corpus,
        n,
        #[trigger] after[s],
        named[s],
        m + 1,
    ) by {
        if s == at {
            lemma_slot_taken(corpus, n, before[at], winners[at], m, slot);
        } else {
            assert(after[s] == before[s]);
            if before[s].key@ == key {
                lemma_one_place(before, key, s, at);
            }
            lemma_slot_stays(corpus, n, before[s], winners[s], m);
        }
    }
    lemma_covered_same(before, after, corpus, n, m, at);
    lemma_ordered_same(before, after);
}

/// Putting a key between the keys that come before it and those that come
/// after it keeps the slots in order.
proof fn lemma_insert_ordered(before: Seq<Slot>, at: int, slot: Slot)
    requires
        slots_ordered(before),
        0 <= at <= before.len(),
        forall|i: int| 0 <= i < at ==> lex_lt(#[trigger] before[i].key@, slot.key@),
        forall|i: int| at <= i < before.len() ==> lex_lt(slot.key@, #[trigger] before[i].key@),
    ensures
        slots_ordered(before.insert(at, slot)),
{
    let after = before.insert(at, slot);
    assert forall|i: int, j: int| 0 <= i < j < after.len() implies lex_lt(
        #[trigger] after[i].key@,
        #[trigger] after[j].key@,
    ) by {
        let a = if i < at {
            i
        } else {
            i - 1
        };
        let b = if j < at {
            j
        } else {
            j - 1
        };
        if i != at && j != at {
            assert(after[i] == before[a] && after[j] == before[b]);
            assert(lex_lt(before[a].key@, before[b].key@));
        } else if i == at {
            assert(after[j] == before[b]);
            assert(lex_lt(slot.key@, before[b].key@));
        } else {
            assert(after[i] == before[a]);
            assert(lex_lt(before[a].key@, slot.key@));
        }
    }
}

/// After an entry got a slot of its own, each slot is won by the entry
/// named for it.
proof fn lemma_insert_won(
    before: Seq<Slot>,
    winners: Seq<int>,
    corpus: Seq<EntryModel>,
    n: nat,
    m: int,
    at: int,
    slot: Slot,
)
    requires
        0 <= m < corpus.len(),
        all_won(before, winners, corpus, n, m),
        all_covered(before, corpus, n, m),
        eligible(corpus[m], n),
        0 <= at <= before.len(),
        forall|i: int| !holds_key(before, entry_key(corpus[m]), i),
        slot.key@ == entry_key(corpus[m]),
        slot.label@ == ascii_codes(corpus[m].label),
        slot.shape == corpus[m].shape,
    ensures
        all_won(before.insert(at, slot), winners.insert(at, m), corpus, n, m + 1),
{
    let key = entry_key(corpus[m]);
    let after = before.insert(at, slot);
    let named = winners.insert(at, m);
    lemma_slot_new(before, corpus, n, m, slot);
    assert forall|s: int| 0 <= s < after.len() implies won_by(
        corpus,
        n,
        #[trigger] after[s],
        named[s],
        m + 1,
    ) by {
        if s != at {
            let t = if s < at {
                s
            } else {
                s - 1
            };
            assert(after[s] == before[t]);
            assert(named[s] == winners[t]);
            assert(!holds_key(before, key, t));
            lemma_slot_stays(corpus, n, before[t], winners[t], m);
        } else {
            assert(after[s] == slot);
            assert(named[s] == m);
        }
    }
}

/// After an entry got a slot of its own, each key claimed so far has a slot.
proof fn lemma_insert_covered(
    before: Seq<Slot>,
    corpus: Seq<EntryModel>,
    n: nat,
    m: int,
    at: int,
    slot: Slot,
)
    requires
        0 <= m < corpus.len(),
        all_covered(before, corpus, n, m),
        0 <= at <= before.len(),
        slot.key@ == entry_key(corpus[m]),
    ensures
        all_covered(before.insert(at, slot), corpus, n, m + 1),
{
    let after = before.insert(at, slot);
    assert forall|j: int| j < m + 1 && eligible(#[trigger] corpus[j], n) && 0 <= j implies exists|
        s: int,
    | holds_key(after, entry_key(corpus[j]), s) by {
        if j < m {
            let s = choose|s: int| holds_key(before, entry_key(corpus[j]), s);
            if s < at {
                assert(after[s] == before[s]);
                assert(holds_key(after, entry_key(corpus[j]), s));
            } else {
                assert(after[s + 1] == before[s]);
                assert(holds_key(after, entry_key(corpus[j]), s + 1));
            }
        } else {
            assert(after[at] == slot);
            assert(holds_key(after, entry_key(corpus[j]), at));
        }
    }
}

/// An entry whose key has no slot yet gets one, at the place that keeps the
/// keys in order.
proof fn lemma_built_insert(
    before: Seq<Slot>,
    winners: Seq<int>,
    corpus: Seq<EntryModel>,
    n: nat,
    m: int,
    at: int,
    slot: Slot,
)
    requires
        0 <= m < corpus.len(),
        built_from(before, winners, corpus, n, m),
        eligible(corpus[m], n),
        0 <= at <= before.len(),
        forall|i: int| !holds_key(before, entry_key(corpus[m]), i),
        forall|i: int| 0 <= i < at ==> lex_lt(#[trigger] before[i].key@, entry_key(corpus[m])),
        forall|i: int|
            at <= i < before.len() ==> lex_lt(entry_key(corpus[m]), #[trigger] before[i].key@),
        slot.key@ == entry_key(corpus[m]),
        slot.label@ == ascii_codes(corpus[m].label),
        slot.shape == corpus[m].shape,
    ensures
        built_from(before.insert(at, slot), winners.insert(at, m), corpus, n, m + 1),
{
    reveal(built_from);
    lemma_insert_ordered(before, at, slot);
    lemma_insert_won(before, winners, corpus, n, m, at, slot);
    lemma_insert_covered(before, corpus, n, m, at, slot);
}

/// Whether each slot has a key of half the difficulty in bytes and a shape
/// whose lengths add up to the difficulty.
#[verifier::opaque]
spec fn slots_fit(slots: Seq<Slot>, difficulty: usize) -> bool {
    forall|i: int|
        0 <= i < slots.len() ==> {
            &&& (#[trigger] slots[i]).key@.len() == difficulty / 2
            &&& slots[i].shape.l1 + slots[i].shape.l2 == difficulty
        }
}

/// No slots are the table of no entries.
proof fn lemma_built_nothing(corpus: Seq<EntryModel>, n: nat, difficulty: usize)
    ensures
        built_from(Seq::<Slot>::empty(), Seq::<int>::empty(), corpus, n, 0),
        slots_fit(Seq::<Slot>::empty(), difficulty),
{
    reveal(built_from);
    reveal(slots_fit);
}

/// Slots that are the table of some entries are ordered.
proof fn lemma_built_ordered(
    slots: Seq<Slot>,
    winners: Seq<int>,
    corpus: Seq<EntryModel>,
    n: nat,
    m: int,
)
    requires
        built_from(slots, winners, corpus, n, m),
    ensures
        slots_ordered(slots),
{
    reveal(built_from);
}

/// A slot that fits, put in place of another or between the others, leaves
/// slots that fit.
proof fn lemma_fit_kept(slots: Seq<Slot>, difficulty: usize, at: int, slot: Slot)
    requires
        slots_fit(slots, difficulty),
        slot.key@.len() == difficulty / 2,
        slot.shape.l1 + slot.shape.l2 == difficulty,
    ensures
        0 <= at < slots.len() ==> slots_fit(slots.update(at, slot), difficulty),
        0 <= at <= slots.len() ==> slots_fit(slots.insert(at, slot), difficulty),
{
    reveal(slots_fit);
    if 0 <= at <= slots.len() {
        let after = slots.insert(at, slot);
        assert forall|i: int| 0 <= i < after.len() implies {
            &&& (#[trigger] after[i]).key@.len() == difficulty / 2
            &&& after[i].shape.l1 + after[i].shape.l2 == difficulty
        } by {
            if i < at {
                assert(after[i] == slots[i]);
            } else if i > at {
                assert(after[i] == slots[i - 1]);
            }
        }
    }
}

/// Slots that fit make a sound table: each of its keys has half the
/// difficulty in bytes, and the lengths of each of its shapes add up to the
/// difficulty.
proof fn lemma_fit_sound(slots: Seq<Slot>, difficulty: usize)
    requires
        slots_fit(slots, difficulty),
    ensures
        forall|i: int|
            0 <= i < slots.len() ==> {
                &&& (#[trigger] slots[i]).key@.len() == difficulty / 2
                &&& slots[i].shape.l1 + slots[i].shape.l2 == difficulty
            },
        forall|key: Seq<u8>| #[trigger]
            slots_map(slots).contains_key(key) ==> {
                &&& key.len() == difficulty / 2
                &&& slots_map(slots)[key].l1 + slots_map(slots)[key].l2 == difficulty
            },
{
    reveal(slots_fit);
    assert forall|key: Seq<u8>| #[trigger] slots_map(slots).contains_key(key) implies {
        &&& key.len() == difficulty / 2
        &&& slots_map(slots)[key].l1 + slots_map(slots)[key].l2 == difficulty
    } by {
        let i = choose|i: int| holds_key(slots, key, i);
        assert(slots[i].key@ == key);
    }
}

/// Compiles the corpus for a difficulty. An odd difficulty is refused, and
/// so is one above 64. Of the corpus only the entries count whose label has
/// as many characters as the difficulty says and decodes; the bytes it
/// decodes to are its key. Where several entries have one key, the one
/// whose label sorts first gives the shape. Every key of the table has half
/// the difficulty in bytes, and the two lengths of every shape in it add up
/// to the difficulty.
pub fn compile(corpus: &Vec<CorpusEntry>, difficulty: usize) -> (r: Result<
    CompiledTable,
    DifficultyError,
>)
    ensures
        match r {
            Ok(table) => {
                &&& difficulty % 2 == 0
                &&& difficulty <= MAX_DIFFICULTY
                &&& table.spec_difficulty() == difficulty
                &&& table@ == compiled(corpus_model(corpus@), difficulty as nat)
                &&& forall|key: Seq<u8>| #[trigger]
                    table@.contains_key(key) ==> {
                        &&& key.len() == difficulty / 2
                        &&& table@[key].l1 + table@[key].l2 == difficulty
                    }
            },
            Err(DifficultyError::Odd) => difficulty % 2 == 1,
            Err(DifficultyError::TooLarge) => difficulty % 2 == 0 && difficulty > MAX_DIFFICULTY,
        },
{
    if difficulty % 2 == 1 {
        return Err(DifficultyError::Odd);
    }
    if difficulty > MAX_DIFFICULTY {
        return Err(DifficultyError::TooLarge);
    }
    let ghost model = corpus_model(corpus@);
    let ghost n = difficulty as nat;
    let mut slots: Vec<Slot> = Vec::new();
    let ghost mut winners: Seq<int> = Seq::empty();
    let mut m: usize = 0;
    proof {
        lemma_built_nothing(model, n, difficulty);
    }
    while m < corpus.len()
        invariant
            m <= corpus@.len(),
            model == corpus_model(corpus@),
            n == difficulty,
            difficulty % 2 == 0,
            built_from(slots@, winners, model, n, m as int),
            slots_fit(slots@, difficulty),
        decreases corpus@.len() - m,
    {
        let entry = &corpus[m];
        let label = entry.label();
        let shape = entry.shape();
        assert(model[m as int] == entry@);
        let key: Option<Vec<u8>> = if label.unicode_len() == difficulty {
            match decode_hex(label) {
                Ok(key) => Some(key),
                Err(_) => None,
            }
        } else {
            None
        };
        match key {
            Some(key) => {
                proof {
                    lemma_label_codes(label@);
                    lemma_built_ordered(slots@, winners, model, n, m as int);
                }
                let codes = label.as_bytes_vec();
                let (found, at) = find_slot(&slots, key.as_slice());
                let ghost before = slots@;
                if found {
                    let first = match compare_bytes(codes.as_slice(), slots[at].label.as_slice()) {
                        Sorts::Before => true,
                        _ => false,
                    };
                    if first {
                        let slot = Slot { key, label: codes, shape };
                        proof {
                            lemma_built_replace(before, winners, model, n, m as int, at as int, slot);
                            lemma_fit_kept(before, difficulty, at as int, slot);
                            winners = winners.update(at as int, m as int);
                        }
                        slots.set(at, slot);
                    } else {
                        proof {
                            lemma_built_keep(before, winners, model, n, m as int, at as int);
                        }
                    }
                } else {
                    let slot = Slot { key, label: codes, shape };
                    proof {
                        lemma_built_insert(before, winners, model, n, m as int, at as int, slot);
                        lemma_fit_kept(before, difficulty, at as int, slot);
                        winners = winners.insert(at as int, m as int);
                    }
                    slots.insert(at, slot);
                }
            },
            None => {
                proof {
                    lemma_built_skip(slots@, winners, model, n, m as int);
                }
            },
        }
        m = m + 1;
    }
    proof {
        lemma_built_is_compiled(slots@, winners, model, n);
        lemma_built_ordered(slots@, winners, model, n, m as int);
        lemma_fit_sound(slots@, difficulty);
    }
    Ok(CompiledTable { difficulty, slots })
}

} // verus!

//! The corpus of labels, and what compiling it for a difficulty gives.

use crate::codec::{decoded, from_readable, is_hex_char, is_hex_text};
use crate::hexcode::{ascii_codes, unhex_bytes};
use crate::order::{
    lemma_lex_asymmetric, lemma_lex_irreflexive, lemma_lex_total, lemma_lex_transitive, lex_lt,
};
use vstd::prelude::*;
use vstd::string::StrSliceExecFns;
use vstd::utf8::{encode_utf8, is_ascii_chars, is_ascii_chars_encode_utf8};

verus! {

/// Where a pretty name is split in two: the lengths of its two parts.
#[derive(Clone, Copy, Debug, PartialEq, Eq, Structural)]
pub struct LabelShape {
    pub l1: u8,
    pub l2: u8,
}

/// A label and its shape, as contracts see an entry of the corpus.
pub struct EntryModel {
    pub label: Seq<char>,
    pub shape: LabelShape,
}

/// A label of the corpus with its shape. The two lengths of the shape add up
/// to the length of the label.
#[derive(Debug)]
pub struct CorpusEntry {
    label: String,
    shape: LabelShape,
}

impl View for CorpusEntry {
    type V = EntryModel;

    closed spec fn view(&self) -> EntryModel {
        EntryModel { label: self.label@, shape: self.shape }
    }
}

/// Whether the two lengths of the shape add up to the length of the label.
pub open spec fn entry_valid(e: EntryModel) -> bool {
    e.shape.l1 + e.shape.l2 == e.label.len()
}

impl CorpusEntry {
    #[verifier::type_invariant]
    spec fn shape_fits(&self) -> bool {
        entry_valid(self@)
    }

    /// The entry for `label`, split after `l1` characters into parts of
    /// `l1` and `l2` characters; none where the two lengths do not add up
    /// to the length of the label.
    pub fn new(label: &str, l1: u8, l2: u8) -> (r: Option<CorpusEntry>)
        ensures
            match r {
                Some(e) => e@ == (EntryModel { label: label@, shape: LabelShape { l1, l2 } })
                    && entry_valid(e@),
                None => l1 + l2 != label@.len(),
            },
    {
        let length: usize = label.unicode_len();
        if length != l1 as usize + l2 as usize {
            return None;
        }
        Some(CorpusEntry { label: label.to_owned(), shape: LabelShape { l1, l2 } })
    }

    /// The label.
    pub fn label(&self) -> (r: &str)
        ensures
            r@ == self@.label,
    {
        self.label.as_str()
    }

    /// The shape; its two lengths add up to the length of the label.
    pub fn shape(&self) -> (r: LabelShape)
        ensures
            r == self@.shape,
            entry_valid(self@),
    {
        proof {
            use_type_invariant(self);
        }
        self.shape
    }
}

/// The entries of a corpus as contracts see them.
pub open spec fn corpus_model(corpus: Seq<CorpusEntry>) -> Seq<EntryModel> {
    Seq::new(corpus.len(), |i: int| corpus[i]@)
}

/// Whether an entry counts for difficulty `n`: its label has `n` characters
/// and decodes.
pub open spec fn eligible(e: EntryModel, n: nat) -> bool {
    e.label.len() == n && decoded(e.label) is Ok
}

/// The bytes that the label of an eligible entry decodes to.
pub open spec fn entry_key(e: EntryModel) -> Seq<u8> {
    unhex_bytes(ascii_codes(from_readable(e.label)))
}

/// Whether entry `i` of the corpus counts for difficulty `n` and decodes to
/// `key`.
pub open spec fn claims(corpus: Seq<EntryModel>, n: nat, key: Seq<u8>, i: int) -> bool {
    0 <= i < corpus.len() && eligible(corpus[i], n) && entry_key(corpus[i]) == key
}

/// Whether entry `i` goes before entry `j` when the corpus is sorted by
/// label: its label comes first in dictionary order, or neither label comes
/// first and `i` stands no later than `j`.
pub open spec fn sorts_before(corpus: Seq<EntryModel>, i: int, j: int) -> bool {
    let a = ascii_codes(corpus[i].label);
    let b = ascii_codes(corpus[j].label);
    lex_lt(a, b) || (!lex_lt(b, a) && i <= j)
}

/// Whether entry `w` is the first, in sorted order, of the entries among the
/// first `m` that claim `key`.
pub open spec fn decides_among(
    corpus: Seq<EntryModel>,
    n: nat,
    key: Seq<u8>,
    w: int,
    m: int,
) -> bool {
    &&& w < m
    &&& claims(corpus, n, key, w)
    &&& forall|j: int| j < m && #[trigger] claims(corpus, n, key, j) ==> sorts_before(corpus, w, j)
}

/// Whether entry `w` decides what `key` maps to: it is the first, in sorted
/// order, of all the entries that claim `key`.
pub open spec fn decides(corpus: Seq<EntryModel>, n: nat, key: Seq<u8>, w: int) -> bool {
    decides_among(corpus, n, key, w, corpus.len() as int)
}

/// The table for difficulty `n`: each key that some entry claims, with the
/// shape of the entry that decides it.
pub open spec fn compiled(corpus: Seq<EntryModel>, n: nat) -> Map<Seq<u8>, LabelShape> {
    Map::new(
        |key: Seq<u8>| exists|i: int| claims(corpus, n, key, i),
        |key: Seq<u8>| corpus[choose|w: int| decides(corpus, n, key, w)].shape,
    )
}

/// At most one entry decides a key.
pub proof fn lemma_decides_unique(
    corpus: Seq<EntryModel>,
    n: nat,
    key: Seq<u8>,
    v: int,
    w: int,
    m: int,
)
    requires
        decides_among(corpus, n, key, v, m),
        decides_among(corpus, n, key, w, m),
    ensures
        v == w,
{
    assert(sorts_before(corpus, v, w));
    assert(sorts_before(corpus, w, v));
    let a = ascii_codes(corpus[v].label);
    let b = ascii_codes(corpus[w].label);
    if lex_lt(a, b) {
        lemma_lex_asymmetric(a, b);
    }
    if lex_lt(b, a) {
        lemma_lex_asymmetric(b, a);
    }
}

/// When one more entry is looked at, the entry that decides a key stays,
/// unless the new entry claims the key and its label comes first.
pub proof fn lemma_decides_step(corpus: Seq<EntryModel>, n: nat, key: Seq<u8>, w: int, m: int)
    requires
        0 <= m < corpus.len(),
        decides_among(corpus, n, key, w, m),
    ensures
        claims(corpus, n, key, m) && lex_lt(ascii_codes(corpus[m].label), ascii_codes(corpus[w].label))
            ==> decides_among(corpus, n, key, m, m + 1),
        !(claims(corpus, n, key, m) && lex_lt(
            ascii_codes(corpus[m].label),
            ascii_codes(corpus[w].label),
        )) ==> decides_among(corpus, n, key, w, m + 1),
{
    let new = ascii_codes(corpus[m].label);
    let old = ascii_codes(corpus[w].label);
    if claims(corpus, n, key, m) && lex_lt(new, old) {
        assert forall|j: int| j < m + 1 && #[trigger] claims(corpus, n, key, j) implies sorts_before(
            corpus,
            m,
            j,
        ) by {
            let other = ascii_codes(corpus[j].label);
            if j == m {
                lemma_lex_irreflexive(new);
            } else {
                assert(sorts_before(corpus, w, j));
                if lex_lt(old, other) {
                    lemma_lex_transitive(new, old, other);
                } else {
                    lemma_lex_total(old, other);
                }
            }
        }
    } else {
        assert forall|j: int| j < m + 1 && #[trigger] claims(corpus, n, key, j) implies sorts_before(
            corpus,
            w,
            j,
        ) by {
            if j < m {
                assert(sorts_before(corpus, w, j));
            }
        }
    }
}

/// The first entry that claims a key decides it among the entries up to and
/// with itself.
pub proof fn lemma_decides_first(corpus: Seq<EntryModel>, n: nat, key: Seq<u8>, m: int)
    requires
        claims(corpus, n, key, m),
        forall|j: int| j < m ==> !claims(corpus, n, key, j),
    ensures
        decides_among(corpus, n, key, m, m + 1),
{
    lemma_lex_irreflexive(ascii_codes(corpus[m].label));
}

/// Among the first `m` entries, a key that some entry claims has an entry
/// that decides it.
pub proof fn lemma_decider_exists(corpus: Seq<EntryModel>, n: nat, key: Seq<u8>, m: int)
    requires
        0 <= m <= corpus.len(),
        exists|i: int| i < m && claims(corpus, n, key, i),
    ensures
        exists|w: int| decides_among(corpus, n, key, w, m),
    decreases m,
{
    let last = m - 1;
    if exists|i: int| i < last && claims(corpus, n, key, i) {
        lemma_decider_exists(corpus, n, key, last);
        let w = choose|w: int| decides_among(corpus, n, key, w, last);
        lemma_decides_step(corpus, n, key, w, last);
        if claims(corpus, n, key, last) && lex_lt(
            ascii_codes(corpus[last].label),
            ascii_codes(corpus[w].label),
        ) {
            assert(decides_among(corpus, n, key, last, m));
        } else {
            assert(decides_among(corpus, n, key, w, m));
        }
    } else {
        let i = choose|i: int| i < m && claims(corpus, n, key, i);
        assert(i == last);
        lemma_decides_first(corpus, n, key, last);
        assert(decides_among(corpus, n, key, last, m));
    }
}

/// The keys of the table are what the labels of the entries that count
/// decode to, and nothing else; each has half as many bytes as the
/// difficulty says.
pub proof fn lemma_keys_from_entries(corpus: Seq<EntryModel>, n: nat, key: Seq<u8>)
    ensures
        compiled(corpus, n).contains_key(key) <==> exists|i: int| claims(corpus, n, key, i),
        compiled(corpus, n).contains_key(key) ==> key.len() == n / 2,
{
    if compiled(corpus, n).contains_key(key) {
        let i = choose|i: int| claims(corpus, n, key, i);
        assert(eligible(corpus[i], n));
    }
}

/// The shape that a key maps to is the shape of an entry that counts and
/// decodes to the key; where the shapes of the corpus fit their labels, its
/// two lengths add up to the difficulty.
pub proof fn lemma_shapes_add_up(corpus: Seq<EntryModel>, n: nat, key: Seq<u8>)
    requires
        compiled(corpus, n).contains_key(key),
    ensures
        exists|i: int| claims(corpus, n, key, i) && compiled(corpus, n)[key] == corpus[i].shape,
        (forall|i: int| 0 <= i < corpus.len() ==> entry_valid(#[trigger] corpus[i])) ==> compiled(
            corpus,
            n,
        )[key].l1 + compiled(corpus, n)[key].l2 == n,
{
    let i = choose|i: int| claims(corpus, n, key, i);
    assert(i < corpus.len() && claims(corpus, n, key, i));
    lemma_decider_exists(corpus, n, key, corpus.len() as int);
    let w0 = choose|w: int| decides_among(corpus, n, key, w, corpus.len() as int);
    assert(decides(corpus, n, key, w0));
    let w = choose|w: int| decides(corpus, n, key, w);
    assert(claims(corpus, n, key, w));
    if forall|i: int| 0 <= i < corpus.len() ==> entry_valid(#[trigger] corpus[i]) {
        assert(entry_valid(corpus[w]));
    }
}

/// The place of entry `i` once the entry at `at` is taken out.
pub open spec fn place_without(at: int, i: int) -> int {
    if i < at {
        i
    } else {
        i - 1
    }
}

/// The place that entry `j` had before the entry at `at` was taken out.
pub open spec fn place_with(at: int, j: int) -> int {
    if j < at {
        j
    } else {
        j + 1
    }
}

/// The entry that decides a key still decides it when an entry that does
/// not count is taken out.
pub proof fn lemma_decider_survives(
    corpus: Seq<EntryModel>,
    n: nat,
    at: int,
    key: Seq<u8>,
    w: int,
)
    requires
        0 <= at < corpus.len(),
        !eligible(corpus[at], n),
        decides(corpus, n, key, w),
    ensures
        decides(corpus.remove(at), n, key, place_without(at, w)),
        corpus.remove(at)[place_without(at, w)] == corpus[w],
{
    let rest = corpus.remove(at);
    let v = place_without(at, w);
    assert(rest[v] == corpus[w]);
    assert forall|j: int| j < rest.len() && #[trigger] claims(rest, n, key, j) implies sorts_before(
        rest,
        v,
        j,
    ) by {
        let k = place_with(at, j);
        assert(rest[j] == corpus[k]);
        assert(claims(corpus, n, key, k));
        assert(sorts_before(corpus, w, k));
    }
}

/// An entry gives the table nothing if its label has not as many
/// characters as the difficulty says, or does not decode, or decodes to
/// other than half as many bytes: the table is the same with the entry and
/// without it, and what its label decodes to, if it decodes, is no key.
pub proof fn lemma_ineligible_entry_ignored(corpus: Seq<EntryModel>, n: nat, at: int)
    requires
        0 <= at < corpus.len(),
        corpus[at].label.len() != n || decoded(corpus[at].label) is Err || decoded(
            corpus[at].label,
        )->Ok_0.len() != n / 2,
    ensures
        compiled(corpus.remove(at), n) == compiled(corpus, n),
        decoded(corpus[at].label) matches Ok(key) ==> !compiled(corpus, n).contains_key(key),
{
    assert(!eligible(corpus[at], n));
    if decoded(corpus[at].label) is Ok {
        let key = decoded(corpus[at].label)->Ok_0;
        lemma_keys_from_entries(corpus, n, key);
    }
    let rest = corpus.remove(at);
    let with = compiled(corpus, n);
    let without = compiled(rest, n);
    assert forall|key: Seq<u8>| with.dom().contains(key) implies without.dom().contains(key) by {
        let i = choose|i: int| claims(corpus, n, key, i);
        let j = place_without(at, i);
        assert(rest[j] == corpus[i]);
        assert(claims(rest, n, key, j));
    }
    assert forall|key: Seq<u8>| without.dom().contains(key) implies with.dom().contains(key) by {
        let j = choose|j: int| claims(rest, n, key, j);
        let i = place_with(at, j);
        assert(rest[j] == corpus[i]);
        assert(claims(corpus, n, key, i));
    }
    assert forall|key: Seq<u8>| with.dom().contains(key) implies with[key] == without[key] by {
        let i = choose|i: int| claims(corpus, n, key, i);
        assert(i < corpus.len() && claims(corpus, n, key, i));
        lemma_decider_exists(corpus, n, key, corpus.len() as int);
        let w0 = choose|w: int| decides_among(corpus, n, key, w, corpus.len() as int);
        assert(decides(corpus, n, key, w0));
        let w = choose|w: int| decides(corpus, n, key, w);
        lemma_decider_survives(corpus, n, at, key, w);
        let v = place_without(at, w);
        let u = choose|u: int| decides(rest, n, key, u);
        lemma_decides_unique(rest, n, key, u, v, rest.len() as int);
    }
    assert(with =~= without);
}

/// Whether no two entries of the corpus have one label.
pub open spec fn labels_differ(corpus: Seq<EntryModel>) -> bool {
    forall|i: int, j: int|
        0 <= i < j < corpus.len() ==> (#[trigger] corpus[i]).label != (#[trigger] corpus[j]).label
}

/// Two labels that decode and have the same codes are the same label.
pub proof fn lemma_codes_tell_labels_apart(a: Seq<char>, b: Seq<char>)
    requires
        decoded(a) is Ok,
        decoded(b) is Ok,
        ascii_codes(a) == ascii_codes(b),
    ensures
        a == b,
{
    assert(a.len() == ascii_codes(a).len());
    assert(b.len() == ascii_codes(b).len());
    assert forall|i: int| 0 <= i < a.len() implies a[i] == b[i] by {
        assert(is_hex_char(from_readable(a)[i]));
        assert(is_hex_char(from_readable(b)[i]));
        assert(ascii_codes(a)[i] == a[i] as u8);
        assert(ascii_codes(b)[i] == b[i] as u8);
    }
    assert(a =~= b);
}

/// Of two corpora that hold the same entries, no two of them with one
/// label, the entry that decides a key in one is the entry that decides it
/// in the other.
pub proof fn lemma_same_decider(
    a: Seq<EntryModel>,
    b: Seq<EntryModel>,
    n: nat,
    key: Seq<u8>,
    v: int,
    w: int,
)
    requires
        forall|e: EntryModel| a.contains(e) <==> b.contains(e),
        labels_differ(b),
        decides(a, n, key, v),
        decides(b, n, key, w),
    ensures
        a[v] == b[w],
{
    assert(a.contains(a[v]));
    let j = choose|j: int| 0 <= j < b.len() && b[j] == a[v];
    assert(claims(b, n, key, j));
    assert(sorts_before(b, w, j));
    assert(b.contains(b[w]));
    let i = choose|i: int| 0 <= i < a.len() && a[i] == b[w];
    assert(claims(a, n, key, i));
    assert(sorts_before(a, v, i));
    let mine = ascii_codes(a[v].label);
    let theirs = ascii_codes(b[w].label);
    if lex_lt(mine, theirs) {
        lemma_lex_asymmetric(mine, theirs);
    }
    if lex_lt(theirs, mine) {
        lemma_lex_asymmetric(theirs, mine);
    }
    lemma_lex_total(mine, theirs);
    lemma_codes_tell_labels_apart(a[v].label, b[w].label);
    assert(j == w);
}

/// The table does not depend on the order of the corpus: two corpora that
/// hold the same entries, no two of them with one label, compile to the
/// same table.
pub proof fn lemma_compiled_order_free(a: Seq<EntryModel>, b: Seq<EntryModel>, n: nat)
    requires
        forall|e: EntryModel| a.contains(e) <==> b.contains(e),
        labels_differ(b),
    ensures
        compiled(a, n) == compiled(b, n),
{
    let left = compiled(a, n);
    let right = compiled(b, n);
    assert forall|key: Seq<u8>| left.dom().contains(key) implies right.dom().contains(key) by {
        let i = choose|i: int| claims(a, n, key, i);
        assert(a.contains(a[i]));
        let j = choose|j: int| 0 <= j < b.len() && b[j] == a[i];
        assert(claims(b, n, key, j));
    }
    assert forall|key: Seq<u8>| right.dom().contains(key) implies left.dom().contains(key) by {
        let j = choose|j: int| claims(b, n, key, j);
        assert(b.contains(b[j]));
        let i = choose|i: int| 0 <= i < a.len() && a[i] == b[j];
        assert(claims(a, n, key, i));
    }
    assert forall|key: Seq<u8>| left.dom().contains(key) implies left[key] == right[key] by {
        let i = choose|i: int| claims(a, n, key, i);
        assert(i < a.len() && claims(a, n, key, i));
        lemma_decider_exists(a, n, key, a.len() as int);
        let v0 = choose|v: int| decides_among(a, n, key, v, a.len() as int);
        assert(decides(a, n, key, v0));
        let v = choose|v: int| decides(a, n, key, v);
        let j = choose|j: int| claims(b, n, key, j);
        assert(j < b.len() && claims(b, n, key, j));
        lemma_decider_exists(b, n, key, b.len() as int);
        let w0 = choose|w: int| decides_among(b, n, key, w, b.len() as int);
        assert(decides(b, n, key, w0));
        let w = choose|w: int| decides(b, n, key, w);
        lemma_same_decider(a, b, n, key, v, w);
    }
    assert(left =~= right);
}

/// The label of an entry that decodes is ASCII: its bytes are the codes of
/// its characters.
pub proof fn lemma_label_codes(label: Seq<char>)
    requires
        is_hex_text(from_readable(label)),
    ensures
        is_ascii_chars(label),
        encode_utf8(label) == ascii_codes(label),
{
    assert forall|i: int| 0 <= i < label.len() implies '\0' <= #[trigger] label[i] <= '\u{7f}' by {
        assert(is_hex_char(from_readable(label)[i]));
    }
    is_ascii_chars_encode_utf8(label);
    assert(encode_utf8(label) =~= ascii_codes(label));
}

} // verus!

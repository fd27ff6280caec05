//! Matching a candidate key: its SHA-256 digest, the first bytes of the
//! digest, and the label that those bytes spell.

use crate::codec::{push_char, to_readable, to_readable_char};
use crate::corpus::LabelShape;
use crate::hexcode::{ascii_text, hex_chars, hex_encode};
use crate::table::CompiledTable;
use vstd::prelude::*;
use vstd::slice::slice_subrange;
use vstd::string::{StrSliceExecFns, StringExecFns};

verus! {

/// The SHA-256 digest of `data`.
pub uninterp spec fn sha256(data: Seq<u8>) -> Seq<u8>;

/// The number of bytes of a digest.
pub const DIGEST_LEN: usize = 32;

/// The number of bytes of a digest that a report shows.
pub const SHOWN_LEN: usize = 16;

/// Input of this many bytes or more is too long to digest.
pub const DIGEST_INPUT_LIMIT: u64 = 0x2000_0000_0000_0000;

/// Calls `ring::digest::digest` with `ring::digest::SHA256`: the 32 bytes of
/// the SHA-256 digest of `data`. The call panics on input whose length in
/// bits does not fit in 64 bits, so such input is left out.
#[verifier::external_body]
fn sha256_digest(data: &[u8]) -> (r: Vec<u8>)
    requires
        data@.len() < DIGEST_INPUT_LIMIT,
    ensures
        r@ == sha256(data@),
        r@.len() == DIGEST_LEN,
{
    ring::digest::digest(&ring::digest::SHA256, data).as_ref().to_vec()
}

/// The SHA-256 digest of a candidate key.
pub fn digest(candidate: &[u8]) -> (r: Vec<u8>)
    requires
        candidate@.len() < DIGEST_INPUT_LIMIT,
    ensures
        r@ == sha256(candidate@),
        r@.len() == DIGEST_LEN,
{
    sha256_digest(candidate)
}

/// The first bytes of a digest, as many as a difficulty asks for: one for
/// each two hexadecimal digits.
pub fn prefix(digest: &[u8], difficulty: usize) -> (r: &[u8])
    requires
        difficulty / 2 <= digest@.len(),
    ensures
        r@ == digest@.take(difficulty as int / 2),
{
    slice_subrange(digest, 0, difficulty / 2)
}

/// The hexadecimal text of the first sixteen bytes of the SHA-256 digest of
/// `key`.
pub fn bhash(key: &[u8]) -> (r: String)
    requires
        key@.len() < DIGEST_INPUT_LIMIT,
    ensures
        r@ == hex_chars(sha256(key@).take(SHOWN_LEN as int)),
{
    let result = sha256_digest(key);
    hex_encode(slice_subrange(result.as_slice(), 0, SHOWN_LEN))
}

/// The pretty name for `code`: its first `l1` characters and the `l2`
/// characters after them, each part made readable, with a hyphen between.
pub open spec fn pretty_name(code: Seq<char>, l1: u8, l2: u8) -> Seq<char> {
    to_readable(code.subrange(0, l1 as int)) + seq!['-'] + to_readable(
        code.subrange(l1 as int, l1 + l2),
    )
}

/// Writes the pretty name for `code`, split after `l1` characters into parts
/// of `l1` and `l2` characters.
pub fn pretty_animal_name(code: &str, l1: u8, l2: u8) -> (r: String)
    requires
        l1 + l2 <= code@.len(),
    ensures
        r@ == pretty_name(code@, l1, l2),
{
    let length: usize = code.unicode_len();
    let cut: usize = l1 as usize;
    let end: usize = l1 as usize + l2 as usize;
    let mut first = String::new();
    let mut second = String::new();
    let mut k: usize = 0;
    for c in it: code.chars()
        invariant
            it.seq() == code@,
            length == code@.len(),
            cut == l1,
            end == l1 + l2,
            end <= length,
            k == it.index(),
            first@ == to_readable(
                code@.subrange(
                    0,
                    if k < cut {
                        k as int
                    } else {
                        cut as int
                    },
                ),
            ),
            second@ == to_readable(
                code@.subrange(
                    cut as int,
                    if k < cut {
                        cut as int
                    } else if k < end {
                        k as int
                    } else {
                        end as int
                    },
                ),
            ),
    {
        if k < cut {
            push_char(&mut first, to_readable_char(c));
        } else if k < end {
            push_char(&mut second, to_readable_char(c));
        }
        k = k + 1;
    }
    push_char(&mut first, '-');
    first.append(second.as_str());
    first
}

/// Writes the text whose characters have the given codes.
pub fn ascii_string(codes: &[u8]) -> (r: String)
    ensures
        r@ == ascii_text(codes@),
{
    let mut out = String::new();
    let mut i: usize = 0;
    while i < codes.len()
        invariant
            i <= codes@.len(),
            out@ == ascii_text(codes@.take(i as int)),
        decreases codes@.len() - i,
    {
        push_char(&mut out, codes[i] as char);
        i = i + 1;
    }
    assert(codes@.take(i as int) =~= codes@);
    out
}

/// A match as contracts see it.
pub struct FindingModel {
    /// The candidate key.
    pub key: Seq<char>,
    /// The hexadecimal digits of the digest that the table matched.
    pub code: Seq<char>,
    /// The hexadecimal text of the first sixteen bytes of the digest.
    pub hash: Seq<char>,
    /// The shape of the label that the digits spell.
    pub shape: LabelShape,
}

/// A match: a candidate key whose digest starts with the bytes of a label.
/// The two lengths of the shape add up to the number of digits matched.
#[derive(Debug)]
pub struct Finding {
    key: String,
    code: String,
    hash: String,
    shape: LabelShape,
}

impl View for Finding {
    type V = FindingModel;

    closed spec fn view(&self) -> FindingModel {
        FindingModel { key: self.key@, code: self.code@, hash: self.hash@, shape: self.shape }
    }
}

/// Whether the two lengths of the shape add up to the number of digits
/// matched.
pub open spec fn finding_valid(f: FindingModel) -> bool {
    f.shape.l1 + f.shape.l2 == f.code.len()
}

/// The line that reports a match.
pub open spec fn report_text(f: FindingModel) -> Seq<char> {
    "Pretty Name "@ + pretty_name(f.code, f.shape.l1, f.shape.l2) + " Key: "@ + f.key + " Hash: "@
        + f.hash
}

impl Finding {
    #[verifier::type_invariant]
    spec fn shape_fits(&self) -> bool {
        finding_valid(self@)
    }

    /// The candidate key.
    pub fn key(&self) -> (r: &str)
        ensures
            r@ == self@.key,
    {
        self.key.as_str()
    }

    /// The hexadecimal digits of the digest that the table matched.
    pub fn code(&self) -> (r: &str)
        ensures
            r@ == self@.code,
    {
        self.code.as_str()
    }

    /// The hexadecimal text of the first sixteen bytes of the digest.
    pub fn hash(&self) -> (r: &str)
        ensures
            r@ == self@.hash,
    {
        self.hash.as_str()
    }

    /// The shape of the label; its two lengths add up to the number of
    /// digits matched.
    pub fn shape(&self) -> (r: LabelShape)
        ensures
            r == self@.shape,
            finding_valid(self@),
    {
        proof {
            use_type_invariant(self);
        }
        self.shape
    }

    /// The pretty name of the match.
    pub fn pretty_name(&self) -> (r: String)
        ensures
            r@ == pretty_name(self@.code, self@.shape.l1, self@.shape.l2),
    {
        proof {
            use_type_invariant(self);
        }
        pretty_animal_name(self.code.as_str(), self.shape.l1, self.shape.l2)
    }
}

/// Writes the line that reports a match: its pretty name, the key and the
/// hash.
pub fn report_finding(finding: &Finding) -> (r: String)
    ensures
        r@ == report_text(finding@),
{
    let mut line = String::from_str("Pretty Name ");
    let pretty = finding.pretty_name();
    line.append(pretty.as_str());
    line.append(" Key: ");
    line.append(finding.key());
    line.append(" Hash: ");
    line.append(finding.hash());
    line
}

/// What a candidate with the given digest gives against a table for
/// difficulty `n`: a match if the table holds the first `n / 2` bytes of the
/// digest, with the shape that they map to.
pub open spec fn found(
    table: Map<Seq<u8>, LabelShape>,
    n: nat,
    candidate: Seq<u8>,
    digest: Seq<u8>,
) -> Option<FindingModel> {
    let short = digest.take(n as int / 2);
    if table.contains_key(short) {
        Some(
            FindingModel {
                key: ascii_text(candidate),
                code: hex_chars(short),
                hash: hex_chars(digest.take(SHOWN_LEN as int)),
                shape: table[short],
            },
        )
    } else {
        None
    }
}

/// The digits that are matched are the first digits of the digest written
/// out in hexadecimal, as many as the difficulty says; the hash that is
/// shown is its first 32 digits.
pub proof fn lemma_code_is_prefix(
    table: Map<Seq<u8>, LabelShape>,
    n: nat,
    candidate: Seq<u8>,
    digest: Seq<u8>,
)
    requires
        n % 2 == 0,
        n / 2 <= digest.len(),
        SHOWN_LEN <= digest.len(),
        found(table, n, candidate, digest) is Some,
    ensures
        found(table, n, candidate, digest)->Some_0.code == hex_chars(digest).take(n as int),
        found(table, n, candidate, digest)->Some_0.hash == hex_chars(digest).take(
            2 * SHOWN_LEN as int,
        ),
{
    assert(hex_chars(digest.take(n as int / 2)) =~= hex_chars(digest).take(n as int));
    assert(hex_chars(digest.take(SHOWN_LEN as int)) =~= hex_chars(digest).take(
        2 * SHOWN_LEN as int,
    ));
}

/// Looks the digest of a candidate up in the table.
pub fn match_digest(table: &CompiledTable, candidate: &[u8], digest: &[u8]) -> (r: Option<Finding>)
    requires
        digest@.len() == DIGEST_LEN,
    ensures
        match r {
            Some(f) => found(table@, table.spec_difficulty() as nat, candidate@, digest@) == Some(
                f@,
            ),
            None => found(table@, table.spec_difficulty() as nat, candidate@, digest@) is None,
        },
{
    let difficulty = table.difficulty();
    let short = prefix(digest, difficulty);
    match table.lookup(short) {
        None => None,
        Some(shape) => {
            let key = ascii_string(candidate);
            let code = hex_encode(short);
            let hash = hex_encode(slice_subrange(digest, 0, SHOWN_LEN));
            Some(Finding { key, code, hash, shape })
        },
    }
}

/// Digests a candidate and looks the digest up in the table.
pub fn check_candidate(table: &CompiledTable, candidate: &[u8]) -> (r: Option<Finding>)
    requires
        candidate@.len() < DIGEST_INPUT_LIMIT,
    ensures
        match r {
            Some(f) => found(
                table@,
                table.spec_difficulty() as nat,
                candidate@,
                sha256(candidate@),
            ) == Some(f@),
            None => found(
                table@,
                table.spec_difficulty() as nat,
                candidate@,
                sha256(candidate@),
            ) is None,
        },
{
    let result = sha256_digest(candidate);
    match_digest(table, candidate, result.as_slice())
}

/// The matches as contracts see them.
pub open spec fn findings_model(findings: Seq<Finding>) -> Seq<FindingModel> {
    Seq::new(findings.len(), |i: int| findings[i]@)
}

/// The matches among the candidates, in the order of the candidates: each
/// candidate is digested and the digest looked up.
pub open spec fn findings_of(
    table: Map<Seq<u8>, LabelShape>,
    n: nat,
    candidates: Seq<Seq<u8>>,
) -> Seq<FindingModel>
    decreases candidates.len(),
{
    if candidates.len() == 0 {
        Seq::empty()
    } else {
        let earlier = findings_of(table, n, candidates.drop_last());
        match found(table, n, candidates.last(), sha256(candidates.last())) {
            Some(f) => earlier.push(f),
            None => earlier,
        }
    }
}

/// The matches among candidates put one after another are the matches among
/// the first lot, then those among the second.
pub proof fn lemma_findings_concat(
    table: Map<Seq<u8>, LabelShape>,
    n: nat,
    a: Seq<Seq<u8>>,
    b: Seq<Seq<u8>>,
)
    ensures
        findings_of(table, n, a + b) == findings_of(table, n, a) + findings_of(table, n, b),
    decreases b.len(),
{
    if b.len() == 0 {
        assert(a + b =~= a);
        assert(findings_of(table, n, a) + findings_of(table, n, b) =~= findings_of(table, n, a));
    } else {
        lemma_findings_concat(table, n, a, b.drop_last());
        assert((a + b).drop_last() =~= a + b.drop_last());
        assert((a + b).last() == b.last());
        assert(findings_of(table, n, a + b) =~= findings_of(table, n, a) + findings_of(
            table,
            n,
            b,
        ));
    }
}

/// Looks one more candidate up and adds the match, if it is one, to the
/// matches so far.
pub(crate) fn collect_match(
    table: &CompiledTable,
    candidate: &[u8],
    findings: &mut Vec<Finding>,
    Ghost(earlier): Ghost<Seq<Seq<u8>>>,
)
    requires
        candidate@.len() < DIGEST_INPUT_LIMIT,
        findings_model(old(findings)@) == findings_of(
            table@,
            table.spec_difficulty() as nat,
            earlier,
        ),
    ensures
        findings_model(final(findings)@) == findings_of(
            table@,
            table.spec_difficulty() as nat,
            earlier.push(candidate@),
        ),
{
    let ghost before = findings@;
    proof {
        assert(earlier.push(candidate@).drop_last() =~= earlier);
    }
    match check_candidate(table, candidate) {
        Some(f) => {
            findings.push(f);
            assert(findings_model(findings@) =~= findings_model(before).push(f@));
        },
        None => {},
    }
}

} // verus!

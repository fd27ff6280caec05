//! The pool miner: a pool of random bytes is written out in hexadecimal, and
//! every run of 32 digits in it but the last is a candidate. Neighbouring
//! candidates share 31 digits, so one fill of the pool pays for many
//! candidates.

use crate::codec::{is_hex_char, is_hex_text};
use crate::corpus::LabelShape;
use crate::hexcode::{ascii_codes, ascii_text, encode_pool, hex_bytes};
use crate::matcher::{
    collect_match, found, findings_model, findings_of, sha256, Finding, FindingModel,
};
use crate::table::CompiledTable;
use rand::RngCore;
use vstd::prelude::*;
use vstd::slice::slice_subrange;

verus! {

/// The number of 16-byte keys that the pool holds bytes for.
pub const POOL_SIZE: usize = 32768;

/// The number of random bytes in the pool.
pub const POOL_BYTES: usize = 524288;

/// The number of digits of a candidate.
pub const WINDOW_LEN: usize = 32;

/// The run of 32 digits that starts at place `i`.
pub open spec fn window(encoded: Seq<u8>, i: int) -> Seq<u8> {
    encoded.subrange(i, i + WINDOW_LEN)
}

/// The number of candidates that digits of length `len` give: the runs of
/// 32 digits, all but the last.
pub open spec fn window_count(len: nat) -> nat {
    if len >= WINDOW_LEN {
        (len - WINDOW_LEN) as nat
    } else {
        0
    }
}

/// The candidates that the digits give, in order: the run that starts at
/// each place from the first on, for `window_count` places.
pub open spec fn pool_windows(encoded: Seq<u8>) -> Seq<Seq<u8>> {
    Seq::new(window_count(encoded.len()), |i: int| window(encoded, i))
}

/// Every run of 32 digits that the digits hold, in order.
pub open spec fn all_windows(encoded: Seq<u8>) -> Seq<Seq<u8>> {
    Seq::new(
        if encoded.len() >= WINDOW_LEN {
            (encoded.len() - WINDOW_LEN + 1) as nat
        } else {
            0
        },
        |i: int| window(encoded, i),
    )
}

/// Each run of 32 digits is the one before it moved on by one digit: the
/// first digit goes, and the next digit of the pool comes in at the end.
pub proof fn lemma_window_shift(encoded: Seq<u8>, i: int)
    requires
        0 <= i,
        i + WINDOW_LEN < encoded.len(),
    ensures
        window(encoded, i + 1) == window(encoded, i).drop_first().push(encoded[i + WINDOW_LEN]),
{
    assert(window(encoded, i + 1) =~= window(encoded, i).drop_first().push(
        encoded[i + WINDOW_LEN],
    ));
}

/// Digits of length `len`, at least 32, hold `len - 32 + 1` runs of 32
/// digits, each the one before it moved on by one digit. The candidates are
/// these runs but the last: `len - 32` of them.
pub proof fn lemma_windows(encoded: Seq<u8>)
    requires
        encoded.len() >= WINDOW_LEN,
    ensures
        all_windows(encoded).len() == encoded.len() - WINDOW_LEN + 1,
        forall|i: int|
            0 <= i < all_windows(encoded).len() ==> (#[trigger] all_windows(encoded)[i]).len()
                == WINDOW_LEN,
        forall|i: int|
            0 <= i < all_windows(encoded).len() - 1 ==> #[trigger] all_windows(encoded)[i + 1]
                == all_windows(encoded)[i].drop_first().push(encoded[i + WINDOW_LEN]),
        pool_windows(encoded) == all_windows(encoded).drop_last(),
        pool_windows(encoded).len() == encoded.len() - WINDOW_LEN,
{
    assert forall|i: int| 0 <= i < all_windows(encoded).len() - 1 implies #[trigger] all_windows(
        encoded,
    )[i + 1] == all_windows(encoded)[i].drop_first().push(encoded[i + WINDOW_LEN]) by {
        lemma_window_shift(encoded, i);
    }
    assert(pool_windows(encoded) =~= all_windows(encoded).drop_last());
}

/// The matches among the candidates that the digits give.
pub fn search_pool(table: &CompiledTable, encoded: &[u8]) -> (r: Vec<Finding>)
    ensures
        findings_model(r@) == findings_of(
            table@,
            table.spec_difficulty() as nat,
            pool_windows(encoded@),
        ),
{
    let mut findings: Vec<Finding> = Vec::new();
    assert(findings_model(findings@) =~= Seq::<FindingModel>::empty());
    if encoded.len() < WINDOW_LEN {
        assert(pool_windows(encoded@) =~= Seq::<Seq<u8>>::empty());
        return findings;
    }
    let count: usize = encoded.len() - WINDOW_LEN;
    let mut i: usize = 0;
    assert(pool_windows(encoded@).take(0) =~= Seq::<Seq<u8>>::empty());
    while i < count
        invariant
            i <= count,
            count == encoded@.len() - WINDOW_LEN,
            encoded@.len() <= usize::MAX,
            findings_model(findings@) == findings_of(
                table@,
                table.spec_difficulty() as nat,
                pool_windows(encoded@).take(i as int),
            ),
        decreases count - i,
    {
        let candidate = slice_subrange(encoded, i, i + WINDOW_LEN);
        let ghost earlier = pool_windows(encoded@).take(i as int);
        collect_match(table, candidate, &mut findings, Ghost(earlier));
        assert(earlier.push(candidate@) =~= pool_windows(encoded@).take(i + 1));
        i = i + 1;
    }
    assert(pool_windows(encoded@).take(i as int) =~= pool_windows(encoded@));
    findings
}

/// The matches that a pool of bytes gives: the pool is written out in
/// hexadecimal and the digits are searched.
pub fn mine_pool(table: &CompiledTable, pool: &[u8]) -> (r: Vec<Finding>)
    requires
        2 * pool@.len() <= usize::MAX,
    ensures
        findings_model(r@) == findings_of(
            table@,
            table.spec_difficulty() as nat,
            pool_windows(hex_bytes(pool@)),
        ),
{
    let encoded = encode_pool(pool);
    search_pool(table, encoded.as_slice())
}

/// Whether a match is what its own key gives: the key is 32 hexadecimal
/// digits, and digesting it and looking the digest up gives this match.
pub open spec fn genuine(table: Map<Seq<u8>, LabelShape>, n: nat, f: FindingModel) -> bool {
    &&& f.key.len() == WINDOW_LEN
    &&& is_hex_text(f.key)
    &&& found(table, n, ascii_codes(f.key), sha256(ascii_codes(f.key))) == Some(f)
}

/// Each match among candidates is what one of the candidates gives.
pub proof fn lemma_finding_has_candidate(
    table: Map<Seq<u8>, LabelShape>,
    n: nat,
    candidates: Seq<Seq<u8>>,
    i: int,
)
    requires
        0 <= i < findings_of(table, n, candidates).len(),
    ensures
        exists|k: int|
            0 <= k < candidates.len() && found(
                table,
                n,
                #[trigger] candidates[k],
                sha256(candidates[k]),
            ) == Some(findings_of(table, n, candidates)[i]),
    decreases candidates.len(),
{
    let earlier = findings_of(table, n, candidates.drop_last());
    if i < earlier.len() {
        lemma_finding_has_candidate(table, n, candidates.drop_last(), i);
        let k = choose|k: int|
            0 <= k < candidates.drop_last().len() && found(
                table,
                n,
                #[trigger] candidates.drop_last()[k],
                sha256(candidates.drop_last()[k]),
            ) == Some(earlier[i]);
        assert(candidates[k] == candidates.drop_last()[k]);
    } else {
        let k = candidates.len() - 1;
        assert(found(table, n, candidates[k], sha256(candidates[k])) == Some(
            findings_of(table, n, candidates)[i],
        ));
    }
}

/// Every match that a pool gives is genuine.
pub proof fn lemma_pool_findings_genuine(
    table: Map<Seq<u8>, LabelShape>,
    n: nat,
    pool: Seq<u8>,
    i: int,
)
    requires
        0 <= i < findings_of(table, n, pool_windows(hex_bytes(pool))).len(),
    ensures
        genuine(table, n, findings_of(table, n, pool_windows(hex_bytes(pool)))[i]),
{
    let encoded = hex_bytes(pool);
    let candidates = pool_windows(encoded);
    let f = findings_of(table, n, candidates)[i];
    lemma_finding_has_candidate(table, n, candidates, i);
    let k = choose|k: int|
        0 <= k < candidates.len() && found(
            table,
            n,
            #[trigger] candidates[k],
            sha256(candidates[k]),
        ) == Some(f);
    let c = candidates[k];
    assert(c.len() == WINDOW_LEN);
    assert(f.key == ascii_text(c));
    assert(ascii_codes(ascii_text(c)) =~= c);
    assert forall|j: int| 0 <= j < f.key.len() implies is_hex_char(
        #[trigger] f.key[j],
    ) by {
        assert(c[j] == encoded[k + j]);
    }
}

/// Calls `fill_bytes` on `rand::thread_rng()`: the pool is filled with
/// random bytes. Its length stays; nothing else is known of what it holds.
/// The generator is seeded from the system, and the call panics where the
/// system gives it no seed.
#[verifier::external_body]
fn fill_random(pool: &mut Vec<u8>)
    ensures
        final(pool)@.len() == old(pool)@.len(),
{
    rand::thread_rng().fill_bytes(pool.as_mut_slice())
}

/// The number of fills for a limit of `max_tries`, where zero stands for no
/// limit: as many as the counter can hold.
pub fn fills_for(max_tries: u128) -> (r: u128)
    ensures
        r == (if max_tries == 0 {
            u128::MAX
        } else {
            max_tries
        }),
{
    if max_tries == 0 {
        u128::MAX
    } else {
        max_tries
    }
}

/// Fills the pool with random bytes and searches it. Whatever the bytes
/// are, every match that comes back is genuine.
pub fn mine_random_pool(table: &CompiledTable, pool: &mut Vec<u8>) -> (r: Vec<Finding>)
    requires
        2 * old(pool)@.len() <= usize::MAX,
    ensures
        final(pool)@.len() == old(pool)@.len(),
        findings_model(r@) == findings_of(
            table@,
            table.spec_difficulty() as nat,
            pool_windows(hex_bytes(final(pool)@)),
        ),
        forall|i: int|
            0 <= i < r@.len() ==> genuine(
                table@,
                table.spec_difficulty() as nat,
                (#[trigger] r@[i])@,
            ),
{
    fill_random(pool);
    let findings = mine_pool(table, pool.as_slice());
    proof {
        assert forall|i: int| 0 <= i < findings@.len() implies genuine(
            table@,
            table.spec_difficulty() as nat,
            (#[trigger] findings@[i])@,
        ) by {
            assert(findings_model(findings@)[i] == findings@[i]@);
            lemma_pool_findings_genuine(table@, table.spec_difficulty() as nat, pool@, i);
        }
    }
    findings
}

/// The matches that pools give one after another: those of the first pool,
/// then those of the second, and so on.
pub open spec fn findings_of_pools(
    table: Map<Seq<u8>, LabelShape>,
    n: nat,
    pools: Seq<Seq<u8>>,
) -> Seq<FindingModel>
    decreases pools.len(),
{
    if pools.len() == 0 {
        Seq::empty()
    } else {
        findings_of_pools(table, n, pools.drop_last()) + findings_of(
            table,
            n,
            pool_windows(hex_bytes(pools.last())),
        )
    }
}

/// Whether `pools` are as many fills of the pool as `fills` says, each of
/// the size of the pool.
pub open spec fn pools_filled(pools: Seq<Seq<u8>>, fills: nat) -> bool {
    &&& pools.len() == fills
    &&& forall|i: int| 0 <= i < pools.len() ==> (#[trigger] pools[i]).len() == POOL_BYTES
}

/// Mines with random pools: `max_tries` fills of the pool, or, for zero, as
/// many as the counter can hold. The matches are those of the pools that
/// came, one pool after another; whatever the pools held, every match is
/// genuine.
pub fn mine_using_rng(table: &CompiledTable, max_tries: u128) -> (r: Vec<Finding>)
    ensures
        exists|pools: Seq<Seq<u8>>|
            pools_filled(
                pools,
                if max_tries == 0 {
                    u128::MAX as nat
                } else {
                    max_tries as nat
                },
            ) && findings_model(r@) == #[trigger] findings_of_pools(
                table@,
                table.spec_difficulty() as nat,
                pools,
            ),
        forall|i: int|
            0 <= i < r@.len() ==> genuine(
                table@,
                table.spec_difficulty() as nat,
                (#[trigger] r@[i])@,
            ),
{
    let mut pool: Vec<u8> = vec![0u8; POOL_BYTES];
    let mut findings: Vec<Finding> = Vec::new();
    let fills: u128 = fills_for(max_tries);
    let mut counter: u128 = fills;
    let ghost mut pools: Seq<Seq<u8>> = Seq::empty();
    assert(findings_model(findings@) =~= Seq::<FindingModel>::empty());
    while counter > 0
        invariant
            pool@.len() == POOL_BYTES,
            counter <= fills,
            pools_filled(pools, (fills - counter) as nat),
            findings_model(findings@) == findings_of_pools(
                table@,
                table.spec_difficulty() as nat,
                pools,
            ),
            forall|i: int|
                0 <= i < findings@.len() ==> genuine(
                    table@,
                    table.spec_difficulty() as nat,
                    (#[trigger] findings@[i])@,
                ),
        decreases counter,
    {
        let mut more = mine_random_pool(table, &mut pool);
        let ghost before = findings@;
        let ghost added = more@;
        findings.append(&mut more);
        proof {
            assert(pools.push(pool@).drop_last() =~= pools);
            assert(findings_model(findings@) =~= findings_model(before) + findings_model(added));
            pools = pools.push(pool@);
        }
        counter = counter - 1;
    }
    findings
}

} // verus!

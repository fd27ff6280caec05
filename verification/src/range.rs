//! The range miner: every 128-bit number in turn, in steps of a fixed size.
//! The candidate for a number is the hexadecimal text of its sixteen bytes,
//! the highest first.

use crate::hexcode::{hex_bytes, hex_encode_to_slice};
use crate::matcher::{
    collect_match, findings_model, findings_of, lemma_findings_concat, Finding, FindingModel,
};
use crate::table::CompiledTable;
use vstd::arithmetic::div_mod::{lemma_fundamental_div_mod, lemma_fundamental_div_mod_converse};
use vstd::prelude::*;

verus! {

/// The number of values in a step.
pub const STEP_SIZE: u128 = 1048576;

/// How many numbers there are: two to the power 128.
pub open spec fn value_count() -> nat {
    (u128::MAX + 1) as nat
}

/// The lowest `count` base-256 digits of `v`, the highest of them first.
pub open spec fn be_bytes(v: nat, count: nat) -> Seq<u8>
    decreases count,
{
    if count == 0 {
        Seq::empty()
    } else {
        be_bytes(v / 256, (count - 1) as nat).push((v % 256) as u8)
    }
}

/// The candidate key for the number `v`: 32 hexadecimal digits.
pub open spec fn candidate_of(v: nat) -> Seq<u8> {
    hex_bytes(be_bytes(v, 16))
}

/// The candidates for the numbers from `low` up to, not with, `high`.
pub open spec fn range_candidates(low: nat, high: nat) -> Seq<Seq<u8>> {
    Seq::new((high - low) as nat, |i: int| candidate_of((low + i) as nat))
}

/// The values that a step visits, in order: step `step` starts at `step`
/// times the step size.
pub open spec fn step_values(step_size: nat, step: nat) -> Seq<nat> {
    Seq::new(step_size, |j: int| (step * step_size + j) as nat)
}

/// The sixteen bytes of `val`, the highest first.
pub fn to_be_bytes(val: u128) -> (r: [u8; 16])
    ensures
        r@ == be_bytes(val as nat, 16),
{
    let mut bytes: [u8; 16] = [0u8; 16];
    let mut rest: u128 = val;
    let mut i: usize = 16;
    assert(bytes@.subrange(16, 16) =~= Seq::<u8>::empty());
    while i > 0
        invariant
            i <= 16,
            be_bytes(val as nat, 16) == be_bytes(rest as nat, i as nat) + bytes@.subrange(
                i as int,
                16,
            ),
        decreases i,
    {
        let ghost before = bytes@;
        i = i - 1;
        bytes[i] = (rest % 256) as u8;
        assert(be_bytes(rest as nat, (i + 1) as nat) + before.subrange(i + 1, 16) =~= be_bytes(
            rest as nat / 256,
            i as nat,
        ) + bytes@.subrange(i as int, 16));
        rest = rest / 256;
    }
    assert(bytes@.subrange(0, 16) =~= bytes@);
    bytes
}

/// Writes the candidate key for `val` into a buffer of 32 bytes.
pub fn write_candidate(val: u128, dest: &mut Vec<u8>)
    requires
        old(dest)@.len() == 32,
    ensures
        final(dest)@ == candidate_of(val as nat),
        final(dest)@.len() == 32,
{
    let bytes = to_be_bytes(val);
    let written = hex_encode_to_slice(bytes.as_slice(), dest);
    assert(written is Ok);
}

/// The matches among the candidates for `count` numbers from `first` on.
pub fn mine_values(table: &CompiledTable, first: u128, count: u128) -> (r: Vec<Finding>)
    requires
        first + count <= value_count(),
    ensures
        findings_model(r@) == findings_of(
            table@,
            table.spec_difficulty() as nat,
            range_candidates(first as nat, (first + count) as nat),
        ),
{
    let mut findings: Vec<Finding> = Vec::new();
    let mut dest: Vec<u8> = vec![0u8; 32];
    let mut done: u128 = 0;
    assert(findings_model(findings@) =~= Seq::<FindingModel>::empty());
    assert(range_candidates(first as nat, first as nat) =~= Seq::<Seq<u8>>::empty());
    while done < count
        invariant
            done <= count,
            first + count <= value_count(),
            dest@.len() == 32,
            findings_model(findings@) == findings_of(
                table@,
                table.spec_difficulty() as nat,
                range_candidates(first as nat, (first + done) as nat),
            ),
        decreases count - done,
    {
        let val: u128 = first + done;
        write_candidate(val, &mut dest);
        let ghost earlier = range_candidates(first as nat, (first + done) as nat);
        collect_match(table, dest.as_slice(), &mut findings, Ghost(earlier));
        assert(earlier.push(dest@) =~= range_candidates(first as nat, (first + done + 1) as nat));
        done = done + 1;
    }
    findings
}

/// The matches of one step: among the candidates for the `step_size`
/// numbers from `step` times `step_size` on.
pub fn mine_step(table: &CompiledTable, step: u128, step_size: u128) -> (r: Vec<Finding>)
    requires
        (step + 1) * step_size <= value_count(),
    ensures
        findings_model(r@) == findings_of(
            table@,
            table.spec_difficulty() as nat,
            range_candidates((step * step_size) as nat, ((step + 1) * step_size) as nat),
        ),
{
    if step_size == 0 {
        assert(step * step_size == 0 && (step + 1) * step_size == 0) by (nonlinear_arith)
            requires
                step_size == 0,
        ;
        return mine_values(table, 0, 0);
    }
    assert(step * step_size + step_size == (step + 1) * step_size) by (nonlinear_arith);
    let first: u128 = step * step_size;
    mine_values(table, first, step_size)
}

/// Cutting a run of numbers in two cuts its candidates in two.
pub proof fn lemma_range_split(low: nat, mid: nat, high: nat)
    requires
        low <= mid <= high,
    ensures
        range_candidates(low, high) == range_candidates(low, mid) + range_candidates(mid, high),
{
    assert(range_candidates(low, high) =~= range_candidates(low, mid) + range_candidates(
        mid,
        high,
    ));
}

/// Where a range miner stands.
#[derive(Clone, Copy, Debug, PartialEq, Eq, Structural)]
pub enum MinerState {
    /// Made, not started.
    Idle,
    /// Started; steps are handed out.
    Running,
    /// Every step was handed out.
    Exhausted,
    /// Stopped from outside before every step was handed out.
    Interrupted,
}

/// A range miner as contracts see it.
pub struct RangeMinerModel {
    pub state: MinerState,
    /// The step that is handed out next.
    pub next_step: nat,
    /// The step at which the range ends: the first that is not handed out.
    pub end_step: nat,
    pub step_size: nat,
}

/// The range miner: it hands out the steps of a range one by one, each
/// once, in rising order, until none is left or it is stopped.
#[derive(Debug)]
pub struct RangeMiner {
    state: MinerState,
    next_step: u128,
    end_step: u128,
    step_size: u128,
}

impl View for RangeMiner {
    type V = RangeMinerModel;

    closed spec fn view(&self) -> RangeMinerModel {
        RangeMinerModel {
            state: self.state,
            next_step: self.next_step as nat,
            end_step: self.end_step as nat,
            step_size: self.step_size as nat,
        }
    }
}

/// Whether the steps of the miner lie within the 128-bit numbers.
pub open spec fn miner_valid(m: RangeMinerModel) -> bool {
    m.next_step <= m.end_step && m.end_step * m.step_size <= value_count()
}

/// Whether steps of `step_size` values fit up to, not with, step
/// `end_step`.
pub fn steps_fit(end_step: u128, step_size: u128) -> (r: bool)
    ensures
        r == (end_step * step_size <= value_count()),
{
    if step_size < 2 {
        assert(end_step * step_size <= end_step) by (nonlinear_arith)
            requires
                step_size < 2,
        ;
        true
    } else {
        let count = step_count(step_size);
        proof {
            let whole = value_count() as int;
            let size = step_size as int;
            lemma_fundamental_div_mod(whole, size);
            assert(0 <= whole % size < size) by (nonlinear_arith)
                requires
                    size > 0,
            ;
            if end_step <= count {
                assert(end_step * size <= whole) by (nonlinear_arith)
                    requires
                        end_step <= count,
                        count * size <= whole,
                        size > 0,
                ;
            } else {
                assert(end_step * size > whole) by (nonlinear_arith)
                    requires
                        end_step >= count + 1,
                        whole == size * count + whole % size,
                        whole % size < size,
                        size > 0,
                ;
            }
        }
        end_step <= count
    }
}

impl RangeMiner {
    #[verifier::type_invariant]
    spec fn within(&self) -> bool {
        miner_valid(self@)
    }

    /// A miner for the steps from `start_step` up to, not with,
    /// `end_step`, not started yet; none where the range is the wrong way
    /// round or runs beyond the 128-bit numbers.
    pub fn new(start_step: u128, end_step: u128, step_size: u128) -> (r: Option<RangeMiner>)
        ensures
            match r {
                Some(m) => m@ == (RangeMinerModel {
                    state: MinerState::Idle,
                    next_step: start_step as nat,
                    end_step: end_step as nat,
                    step_size: step_size as nat,
                }) && miner_valid(m@),
                None => !(start_step <= end_step && end_step * step_size <= value_count()),
            },
    {
        if start_step <= end_step && steps_fit(end_step, step_size) {
            Some(RangeMiner { state: MinerState::Idle, next_step: start_step, end_step, step_size })
        } else {
            None
        }
    }

    /// Where the miner stands.
    pub fn state(&self) -> (r: MinerState)
        ensures
            r == self@.state,
    {
        self.state
    }

    /// The step that is handed out next.
    pub fn next_step(&self) -> (r: u128)
        ensures
            r == self@.next_step,
            miner_valid(self@),
    {
        proof {
            use_type_invariant(self);
        }
        self.next_step
    }

    /// Starts a miner that was not started: it runs, or, with no step in
    /// its range, is exhausted at once. A miner in another state stays as
    /// it is.
    pub fn start(&mut self)
        ensures
            final(self)@ == (if old(self)@.state == MinerState::Idle {
                RangeMinerModel {
                    state: if old(self)@.next_step < old(self)@.end_step {
                        MinerState::Running
                    } else {
                        MinerState::Exhausted
                    },
                    ..old(self)@
                }
            } else {
                old(self)@
            }),
    {
        proof {
            use_type_invariant(&*self);
        }
        match self.state {
            MinerState::Idle => {
                if self.next_step < self.end_step {
                    self.state = MinerState::Running;
                } else {
                    self.state = MinerState::Exhausted;
                }
            },
            _ => {},
        }
    }

    /// Stops a miner that has steps left to hand out or was not started.
    /// A miner that is exhausted or was stopped stays as it is.
    pub fn interrupt(&mut self)
        ensures
            final(self)@ == (if old(self)@.state == MinerState::Idle || old(self)@.state
                == MinerState::Running {
                RangeMinerModel { state: MinerState::Interrupted, ..old(self)@ }
            } else {
                old(self)@
            }),
    {
        proof {
            use_type_invariant(&*self);
        }
        match self.state {
            MinerState::Idle => {
                self.state = MinerState::Interrupted;
            },
            MinerState::Running => {
                self.state = MinerState::Interrupted;
            },
            _ => {},
        }
    }

    /// Hands out the next step of a running miner. A running miner with no
    /// step left becomes exhausted and hands out none; a miner in another
    /// state hands out none and stays as it is.
    pub fn claim_step(&mut self) -> (r: Option<u128>)
        ensures
            match r {
                Some(step) => {
                    &&& old(self)@.state == MinerState::Running
                    &&& step == old(self)@.next_step
                    &&& step < old(self)@.end_step
                    &&& (step + 1) * old(self)@.step_size <= value_count()
                    &&& final(self)@ == RangeMinerModel {
                        next_step: (step + 1) as nat,
                        ..old(self)@
                    }
                },
                None => {
                    &&& !(old(self)@.state == MinerState::Running && old(self)@.next_step < old(
                        self,
                    )@.end_step)
                    &&& final(self)@ == (if old(self)@.state == MinerState::Running {
                        RangeMinerModel { state: MinerState::Exhausted, ..old(self)@ }
                    } else {
                        old(self)@
                    })
                },
            },
    {
        proof {
            use_type_invariant(&*self);
        }
        match self.state {
            MinerState::Running => {
                if self.next_step < self.end_step {
                    let step = self.next_step;
                    proof {
                        lemma_steps_rise(
                            self.step_size as nat,
                            (step + 1) as nat,
                            self.end_step as nat,
                        );
                    }
                    self.next_step = step + 1;
                    Some(step)
                } else {
                    self.state = MinerState::Exhausted;
                    None
                }
            },
            _ => None,
        }
    }

    /// Takes the next step of a running miner and mines it: the step and
    /// its matches come back. Otherwise as `claim_step`.
    pub fn mine_next(&mut self, table: &CompiledTable) -> (r: Option<(u128, Vec<Finding>)>)
        ensures
            match r {
                Some((step, findings)) => {
                    &&& old(self)@.state == MinerState::Running
                    &&& step == old(self)@.next_step
                    &&& step < old(self)@.end_step
                    &&& final(self)@ == RangeMinerModel {
                        next_step: (step + 1) as nat,
                        ..old(self)@
                    }
                    &&& findings_model(findings@) == findings_of(
                        table@,
                        table.spec_difficulty() as nat,
                        range_candidates(
                            (step * old(self)@.step_size) as nat,
                            ((step + 1) * old(self)@.step_size) as nat,
                        ),
                    )
                },
                None => {
                    &&& !(old(self)@.state == MinerState::Running && old(self)@.next_step < old(
                        self,
                    )@.end_step)
                    &&& final(self)@ == (if old(self)@.state == MinerState::Running {
                        RangeMinerModel { state: MinerState::Exhausted, ..old(self)@ }
                    } else {
                        old(self)@
                    })
                },
            },
    {
        let step_size = self.step_size;
        match self.claim_step() {
            Some(step) => Some((step, mine_step(table, step, step_size))),
            None => None,
        }
    }
}

/// The matches of the steps from `start_step` up to, not with, `end_step`,
/// one step after another: the matches among the candidates for all the
/// numbers from `start_step` times `step_size` up to, not with, `end_step`
/// times `step_size`, in rising order.
pub fn mine_using_ranges(
    table: &CompiledTable,
    start_step: u128,
    end_step: u128,
    step_size: u128,
) -> (r: Vec<Finding>)
    requires
        start_step <= end_step,
        end_step * step_size <= value_count(),
    ensures
        findings_model(r@) == findings_of(
            table@,
            table.spec_difficulty() as nat,
            range_candidates((start_step * step_size) as nat, (end_step * step_size) as nat),
        ),
{
    let mut findings: Vec<Finding> = Vec::new();
    let ghost n = table.spec_difficulty() as nat;
    let ghost low = (start_step * step_size) as nat;
    assert(findings_model(findings@) =~= Seq::<FindingModel>::empty());
    assert(range_candidates(low, low) =~= Seq::<Seq<u8>>::empty());
    let mut miner = match RangeMiner::new(start_step, end_step, step_size) {
        Some(miner) => miner,
        None => {
            return findings;
        },
    };
    miner.start();
    loop
        invariant
            n == table.spec_difficulty(),
            low == start_step * step_size,
            miner_valid(miner@),
            miner@.end_step == end_step,
            miner@.step_size == step_size,
            start_step <= miner@.next_step,
            miner@.state == MinerState::Running || (miner@.state == MinerState::Exhausted
                && miner@.next_step == end_step),
            findings_model(findings@) == findings_of(
                table@,
                n,
                range_candidates(low, (miner@.next_step * step_size) as nat),
            ),
        ensures
            miner@.next_step == end_step,
            findings_model(findings@) == findings_of(
                table@,
                n,
                range_candidates(low, (miner@.next_step * step_size) as nat),
            ),
        decreases miner@.end_step - miner@.next_step,
    {
        let ghost before = findings@;
        let ghost step = miner@.next_step;
        match miner.mine_next(table) {
            Some((_, mut more)) => {
                let ghost added = more@;
                findings.append(&mut more);
                proof {
                    lemma_steps_rise(step_size as nat, start_step as nat, step);
                    lemma_steps_rise(step_size as nat, step, step + 1);
                    let mid = (step * step_size) as nat;
                    let high = ((step + 1) * step_size) as nat;
                    assert(findings_model(findings@) =~= findings_model(before) + findings_model(
                        added,
                    ));
                    lemma_range_split(low, mid, high);
                    lemma_findings_concat(
                        table@,
                        n,
                        range_candidates(low, mid),
                        range_candidates(mid, high),
                    );
                }
            },
            None => {
                break ;
            },
        }
    }
    findings
}

/// A later step starts no lower than an earlier one.
pub proof fn lemma_steps_rise(step_size: nat, a: nat, b: nat)
    requires
        a <= b,
    ensures
        a * step_size <= b * step_size,
{
    assert(a * step_size <= b * step_size) by (nonlinear_arith)
        requires
            a <= b,
    ;
}

/// The number of whole steps that the 128-bit numbers make up: step indexes
/// run from zero up to, not with, this count.
pub fn step_count(step_size: u128) -> (r: u128)
    requires
        step_size >= 2,
    ensures
        r == value_count() / (step_size as nat),
        r * step_size <= value_count(),
{
    let whole: u128 = u128::MAX / step_size;
    let left: u128 = u128::MAX % step_size;
    proof {
        lemma_fundamental_div_mod(u128::MAX as int, step_size as int);
        assert(step_size * whole == whole * step_size) by (nonlinear_arith);
    }
    if left == step_size - 1 {
        proof {
            assert((whole + 1) * step_size == whole * step_size + step_size) by (nonlinear_arith);
            assert(whole + 1 <= u128::MAX) by (nonlinear_arith)
                requires
                    (whole + 1) * step_size == value_count(),
                    step_size >= 2,
            ;
            lemma_fundamental_div_mod_converse(
                value_count() as int,
                step_size as int,
                whole + 1,
                0,
            );
        }
        whole + 1
    } else {
        proof {
            lemma_fundamental_div_mod_converse(
                value_count() as int,
                step_size as int,
                whole as int,
                left + 1,
            );
        }
        whole
    }
}

/// The candidates of a step are the candidates for the values that the step
/// visits, in order.
pub proof fn lemma_step_candidates(step_size: nat, step: nat, j: int)
    requires
        0 <= j < step_size,
    ensures
        ((step + 1) * step_size) as nat - (step * step_size) as nat == step_size,
        range_candidates((step * step_size) as nat, ((step + 1) * step_size) as nat)[j]
            == candidate_of(step_values(step_size, step)[j]),
{
    assert((step + 1) * step_size == step * step_size + step_size) by (nonlinear_arith);
}

/// The steps from `a` up to, not with, `b` leave no number out and visit
/// none from elsewhere: a number is visited by one of them just when it
/// lies from `a * step_size` up to, not with, `b * step_size`.
pub proof fn lemma_steps_cover(step_size: nat, a: nat, b: nat, v: nat)
    ensures
        (a * step_size <= v < b * step_size) <==> (exists|step: nat, j: int|
            a <= step < b && 0 <= j < step_size && #[trigger] step_values(step_size, step)[j]
                == v),
{
    if step_size == 0 {
        assert(a * step_size == 0 && b * step_size == 0) by (nonlinear_arith)
            requires
                step_size == 0,
        ;
    } else if a * step_size <= v < b * step_size {
        let step = v / step_size;
        let j = (v % step_size) as int;
        lemma_fundamental_div_mod(v as int, step_size as int);
        assert(step_size * step == step * step_size) by (nonlinear_arith);
        assert(a <= step) by (nonlinear_arith)
            requires
                a * step_size <= v,
                v == step * step_size + j,
                j < step_size,
                step_size > 0,
        ;
        assert(step < b) by (nonlinear_arith)
            requires
                v < b * step_size,
                v == step * step_size + j,
                0 <= j,
                step_size > 0,
        ;
        assert(step_values(step_size, step)[j] == v);
    }
    if exists|step: nat, j: int|
        a <= step < b && 0 <= j < step_size && #[trigger] step_values(step_size, step)[j] == v {
        let (step, j) = choose|step: nat, j: int|
            a <= step < b && 0 <= j < step_size && #[trigger] step_values(step_size, step)[j]
                == v;
        lemma_steps_rise(step_size, a, step);
        lemma_steps_rise(step_size, step + 1, b);
        assert((step + 1) * step_size == step * step_size + step_size) by (nonlinear_arith);
    }
}

/// No number is visited twice: two visits of one number are the same visit
/// of the same step.
pub proof fn lemma_steps_visit_once(step_size: nat, s1: nat, j1: int, s2: nat, j2: int)
    requires
        0 <= j1 < step_size,
        0 <= j2 < step_size,
        step_values(step_size, s1)[j1] == step_values(step_size, s2)[j2],
    ensures
        s1 == s2,
        j1 == j2,
{
    let v = step_values(step_size, s1)[j1] as int;
    assert(v == s1 * step_size + j1);
    assert(v == s2 * step_size + j2);
    lemma_fundamental_div_mod_converse(v, step_size as int, s1 as int, j1);
    lemma_fundamental_div_mod_converse(v, step_size as int, s2 as int, j2);
}

} // verus!

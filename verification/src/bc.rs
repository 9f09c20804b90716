//! A small UTXO/shielded-note ledger: transactions spend transparent
//! outputs and shielded notes, a context tracks which outputs and notes are
//! still spendable, and blocks chain transactions with a score.
//!
//! Invariant breaches are explicit, recoverable errors rather than aborts,
//! so a caller can reject a transaction or block instead of halting.

use vstd::prelude::*;
use std::collections::VecDeque;

use crate::utils::IdSource;

verus! {

/// Why a transaction or block was rejected.
#[derive(Debug, Clone, Copy, PartialEq, Eq, Structural)]
pub enum BCError {
    /// A non-coinbase transaction carried a negative fee.
    NegativeFee,
    /// A non-coinbase transaction carried a nonzero issuance.
    UnexpectedIssuance,
    /// A value total does not fit in 64 bits.
    ValueOverflow,
    /// The transaction's inputs and outputs do not balance.
    Unbalanced,
    /// A block carried no transactions at all.
    EmptyBlock,
    /// A block's first transaction is not a coinbase.
    MissingCoinbase,
    /// A block carried a coinbase transaction after the first.
    ExtraCoinbase,
    /// A block's fees do not sum to zero.
    UnbalancedFees,
}

/// Unique identifier for block hashes.
#[derive(Debug, Clone, Copy, Hash, PartialEq, Eq, Structural)]
pub struct BlockHash {
    /// The identifier drawn for this hash.
    pub id: u64,
}

impl BlockHash {
    /// Draws a fresh block hash from `source`.
    pub fn new(source: &mut IdSource) -> (r: Self)
        requires
            old(source).spec_next() < u64::MAX,
        ensures
            r.id == old(source).spec_next(),
            final(source).spec_next() == old(source).spec_next() + 1,
    {
        BlockHash { id: source.fresh() }
    }
}

/// A transparent transaction output.
#[derive(Debug, Clone, Copy, Hash, PartialEq, Eq, Structural)]
pub struct TXO {
    /// The identifier of the transaction that created this output.
    pub tx_id: u64,
    /// The position of this output among that transaction's outputs.
    pub index: usize,
    /// The value carried by this output.
    pub value: u64,
}

/// A shielded note.
#[derive(Debug, Clone, Copy, Hash, PartialEq, Eq, Structural)]
pub struct Note {
    /// The note's unique identifier.
    pub id: u64,
    /// The value carried by this note.
    pub value: u64,
}

impl Note {
    /// Creates a note of the given value with a fresh identifier.
    pub fn new(value: u64, source: &mut IdSource) -> (r: Self)
        requires
            old(source).spec_next() < u64::MAX,
        ensures
            r.id == old(source).spec_next(),
            r.value == value,
            final(source).spec_next() == old(source).spec_next() + 1,
    {
        Note { id: source.fresh(), value }
    }
}

/// Whether a note has been spent.
#[derive(Debug, Clone, Copy, PartialEq, Eq, Structural)]
pub enum Spentness {
    /// The note is still spendable.
    Unspent,
    /// The note has been spent.
    Spent,
}

/// A snapshot of the ledger state a transaction was validated against:
/// the unspent outputs, the notes with their spentness, and the issuance
/// total, without the transaction list itself.
#[derive(Debug, Clone)]
pub struct BCAnchor {
    /// The unspent transparent outputs at the anchor point.
    pub utxo_set: Vec<TXO>,
    /// Every note at the anchor point, with its spentness.
    pub notes: Vec<(Note, Spentness)>,
    /// The total issuance at the anchor point.
    pub total_issuance: u64,
}

/// The sum of a sequence of 64-bit values, as an unbounded integer.
pub open spec fn sum_values(s: Seq<u64>) -> int
    decreases s.len(),
{
    if s.len() == 0 {
        0
    } else {
        sum_values(s.drop_last()) + s.last()
    }
}

/// The sum of the fees of a sequence of transactions, as an unbounded
/// integer.
pub open spec fn sum_fees(s: Seq<BCTransaction>) -> int
    decreases s.len(),
{
    if s.len() == 0 {
        0
    } else {
        sum_fees(s.drop_last()) + s.last().fee
    }
}

/// A sum of 64-bit values is never negative.
proof fn lemma_sum_values_nonneg(s: Seq<u64>)
    ensures
        sum_values(s) >= 0,
    decreases s.len(),
{
    if s.len() > 0 {
        lemma_sum_values_nonneg(s.drop_last());
    }
}

/// A sum of 64-bit values never falls below the sum of any prefix.
proof fn lemma_sum_values_prefix(s: Seq<u64>, k: int)
    requires
        0 <= k <= s.len(),
    ensures
        sum_values(s) >= sum_values(s.subrange(0, k)),
        sum_values(s.subrange(0, k)) >= 0,
    decreases s.len() - k,
{
    lemma_sum_values_nonneg(s.subrange(0, k));
    if k < s.len() {
        lemma_sum_values_prefix(s, k + 1);
        let t = s.subrange(0, k + 1);
        assert(t.drop_last() =~= s.subrange(0, k));
        assert(sum_values(t) == sum_values(s.subrange(0, k)) + s[k]);
    } else {
        assert(s.subrange(0, k) =~= s);
    }
}

/// A ledger transaction: transparent inputs and outputs, shielded inputs
/// and outputs, a fee, and (for coinbase transactions) an issuance.
#[derive(Debug, Clone)]
pub struct BCTransaction {
    /// The transparent outputs this transaction spends.
    pub transparent_inputs: Vec<TXO>,
    /// The transparent outputs this transaction creates.
    pub transparent_outputs: Vec<TXO>,
    /// The shielded notes this transaction spends.
    pub shielded_inputs: Vec<Note>,
    /// The shielded notes this transaction creates.
    pub shielded_outputs: Vec<Note>,
    /// The fee this transaction pays; coinbase transactions may claim fees
    /// with a negative value.
    pub fee: i64,
    /// The context this transaction was validated against, if any.
    pub anchor: Option<Box<BCAnchor>>,
    /// New value issued by this transaction; nonzero only for coinbase.
    pub issuance: u64,
    /// The transaction's unique identifier.
    pub id: u64,
}

impl BCTransaction {
    /// Whether a transaction with these inputs would be a coinbase: it
    /// spends nothing at all.
    pub open spec fn spec_coinbase(transparent_inputs: Seq<TXO>, shielded_inputs: Seq<Note>) -> bool {
        transparent_inputs.len() == 0 && shielded_inputs.len() == 0
    }

    /// Whether this transaction is a coinbase.
    pub open spec fn spec_is_coinbase(&self) -> bool {
        Self::spec_coinbase(self.transparent_inputs@, self.shielded_inputs@)
    }

    /// The total value consumed: transparent inputs, shielded inputs, and
    /// issuance.
    pub open spec fn spec_total_in(
        transparent_inputs: Seq<TXO>,
        shielded_inputs: Seq<Note>,
        issuance: u64,
    ) -> int {
        sum_values(transparent_inputs.map_values(|t: TXO| t.value)) + sum_values(
            shielded_inputs.map_values(|n: Note| n.value),
        ) + issuance
    }

    /// The total value produced: transparent outputs, shielded outputs, and
    /// a non-negative fee.
    pub open spec fn spec_total_out(
        transparent_output_values: Seq<u64>,
        shielded_output_values: Seq<u64>,
        fee: i64,
    ) -> int {
        sum_values(transparent_output_values) + sum_values(shielded_output_values) + (
        if fee >= 0 {
            fee as int
        } else {
            0
        })
    }

    /// Whether a transaction built from these parts is accepted: fees and
    /// issuance only where coinbase rules allow them, and value balance.
    pub open spec fn spec_accepted(
        transparent_inputs: Seq<TXO>,
        transparent_output_values: Seq<u64>,
        shielded_inputs: Seq<Note>,
        shielded_output_values: Seq<u64>,
        fee: i64,
        issuance: u64,
    ) -> bool {
        let coinbase = Self::spec_coinbase(transparent_inputs, shielded_inputs);
        &&& (fee >= 0 || coinbase)
        &&& (issuance == 0 || coinbase)
        &&& Self::spec_total_in(transparent_inputs, shielded_inputs, issuance) <= u64::MAX
        &&& Self::spec_total_out(transparent_output_values, shielded_output_values, fee)
            <= u64::MAX
        &&& Self::spec_total_in(transparent_inputs, shielded_inputs, issuance)
            == Self::spec_total_out(transparent_output_values, shielded_output_values, fee)
    }

    /// Builds and validates a transaction.
    ///
    /// The transaction gets a fresh identifier; its transparent outputs are
    /// numbered in order with the given values, and its shielded outputs
    /// are fresh notes with the given values.  Fails without drawing any
    /// identifier when a non-coinbase carries a negative fee or a nonzero
    /// issuance, when a value total does not fit in 64 bits, or when total
    /// value in does not equal total value out.
    pub fn new(
        transparent_inputs: Vec<TXO>,
        transparent_output_values: Vec<u64>,
        shielded_inputs: Vec<Note>,
        shielded_output_values: Vec<u64>,
        fee: i64,
        anchor: Option<Box<BCAnchor>>,
        issuance: u64,
        source: &mut IdSource,
    ) -> (r: Result<Self, BCError>)
        requires
            old(source).spec_next() + 1 + shielded_output_values@.len() <= u64::MAX,
        ensures
            r is Ok <==> Self::spec_accepted(
                transparent_inputs@,
                transparent_output_values@,
                shielded_inputs@,
                shielded_output_values@,
                fee,
                issuance,
            ),
            r matches Ok(tx) ==> {
                &&& tx.transparent_inputs@ == transparent_inputs@
                &&& tx.shielded_inputs@ == shielded_inputs@
                &&& tx.fee == fee
                &&& tx.anchor == anchor
                &&& tx.issuance == issuance
                &&& tx.id == old(source).spec_next()
                &&& tx.transparent_outputs@.len() == transparent_output_values@.len()
                &&& forall|i: int|
                    0 <= i < transparent_output_values@.len() ==> tx.transparent_outputs@[i]
                        == (TXO {
                        tx_id: old(source).spec_next(),
                        index: i as usize,
                        value: transparent_output_values@[i],
                    })
                &&& tx.shielded_outputs@.len() == shielded_output_values@.len()
                &&& forall|i: int|
                    0 <= i < shielded_output_values@.len() ==> tx.shielded_outputs@[i] == (Note {
                        id: (old(source).spec_next() + 1 + i) as u64,
                        value: shielded_output_values@[i],
                    })
                &&& final(source).spec_next() == old(source).spec_next() + 1
                    + shielded_output_values@.len()
            },
            r is Err ==> *final(source) == *old(source),
            r matches Err(e) ==> {
                let coinbase = Self::spec_coinbase(transparent_inputs@, shielded_inputs@);
                let total_in = Self::spec_total_in(transparent_inputs@, shielded_inputs@, issuance);
                let total_out = Self::spec_total_out(
                    transparent_output_values@,
                    shielded_output_values@,
                    fee,
                );
                if fee < 0 && !coinbase {
                    e == BCError::NegativeFee
                } else if issuance != 0 && !coinbase {
                    e == BCError::UnexpectedIssuance
                } else if total_in > u64::MAX || total_out > u64::MAX {
                    e == BCError::ValueOverflow
                } else {
                    e == BCError::Unbalanced
                }
            },
    {
        let coinbase = transparent_inputs.len() == 0 && shielded_inputs.len() == 0;
        if fee < 0 && !coinbase {
            return Err(BCError::NegativeFee);
        }
        if issuance != 0 && !coinbase {
            return Err(BCError::UnexpectedIssuance);
        }
        let in_transparent = match sum_txo_values(&transparent_inputs) {
            Some(v) => v,
            None => {
                proof {
                    lemma_sum_values_prefix(shielded_inputs@.map_values(|n: Note| n.value), 0);
                }
                return Err(BCError::ValueOverflow);
            },
        };
        let in_shielded = match sum_note_values(&shielded_inputs) {
            Some(v) => v,
            None => {
                proof {
                    lemma_sum_values_prefix(
                        transparent_inputs@.map_values(|t: TXO| t.value),
                        transparent_inputs@.len() as int,
                    );
                }
                return Err(BCError::ValueOverflow);
            },
        };
        let out_transparent = match sum_u64_values(&transparent_output_values) {
            Some(v) => v,
            None => {
                proof {
                    lemma_sum_values_prefix(shielded_output_values@, 0);
                }
                return Err(BCError::ValueOverflow);
            },
        };
        let out_shielded = match sum_u64_values(&shielded_output_values) {
            Some(v) => v,
            None => {
                proof {
                    lemma_sum_values_prefix(
                        transparent_output_values@,
                        transparent_output_values@.len() as int,
                    );
                }
                return Err(BCError::ValueOverflow);
            },
        };
        let total_in: u128 = in_transparent as u128 + in_shielded as u128 + issuance as u128;
        let fee_out: u64 = if fee >= 0 {
            fee as u64
        } else {
            0
        };
        let total_out: u128 = out_transparent as u128 + out_shielded as u128 + fee_out as u128;
        if total_in > u64::MAX as u128 || total_out > u64::MAX as u128 {
            return Err(BCError::ValueOverflow);
        }
        if total_in != total_out {
            return Err(BCError::Unbalanced);
        }
        let id = source.fresh();
        let mut transparent_outputs: Vec<TXO> = Vec::new();
        let mut i: usize = 0;
        while i < transparent_output_values.len()
            invariant
                0 <= i <= transparent_output_values@.len(),
                transparent_outputs@.len() == i,
                forall|j: int|
                    0 <= j < i ==> transparent_outputs@[j] == (TXO {
                        tx_id: id,
                        index: j as usize,
                        value: transparent_output_values@[j],
                    }),
            decreases transparent_output_values@.len() - i,
        {
            transparent_outputs.push(
                TXO { tx_id: id, index: i, value: transparent_output_values[i] },
            );
            i = i + 1;
        }
        let mut shielded_outputs: Vec<Note> = Vec::new();
        let mut j: usize = 0;
        while j < shielded_output_values.len()
            invariant
                0 <= j <= shielded_output_values@.len(),
                source.spec_next() == id + 1 + j,
                id + 1 + shielded_output_values@.len() <= u64::MAX,
                shielded_outputs@.len() == j,
                forall|k: int|
                    0 <= k < j ==> shielded_outputs@[k] == (Note {
                        id: (id + 1 + k) as u64,
                        value: shielded_output_values@[k],
                    }),
            decreases shielded_output_values@.len() - j,
        {
            shielded_outputs.push(Note::new(shielded_output_values[j], source));
            j = j + 1;
        }
        Ok(
            BCTransaction {
                transparent_inputs,
                transparent_outputs,
                shielded_inputs,
                shielded_outputs,
                fee,
                anchor,
                issuance,
                id,
            },
        )
    }

    /// Whether this transaction is a coinbase: it spends nothing at all.
    pub fn is_coinbase(&self) -> (r: bool)
        ensures
            r == self.spec_is_coinbase(),
    {
        self.transparent_inputs.len() == 0 && self.shielded_inputs.len() == 0
    }
}

/// Sums the values of a vector of transparent outputs, or reports that the
/// total does not fit in 64 bits.
fn sum_txo_values(txos: &Vec<TXO>) -> (r: Option<u64>)
    ensures
        r matches Some(v) ==> v == sum_values(txos@.map_values(|t: TXO| t.value)),
        r is Some <==> sum_values(txos@.map_values(|t: TXO| t.value)) <= u64::MAX,
{
    let ghost vals = txos@.map_values(|t: TXO| t.value);
    let mut acc: u64 = 0;
    let mut i: usize = 0;
    while i < txos.len()
        invariant
            0 <= i <= txos@.len(),
            vals == txos@.map_values(|t: TXO| t.value),
            acc == sum_values(vals.subrange(0, i as int)),
        decreases txos@.len() - i,
    {
        let v = txos[i].value;
        proof {
            let t = vals.subrange(0, i as int + 1);
            assert(t.drop_last() =~= vals.subrange(0, i as int));
            assert(t.last() == v);
        }
        if v > u64::MAX - acc {
            proof {
                lemma_sum_values_prefix(vals, i as int + 1);
            }
            return None;
        }
        acc = acc + v;
        i = i + 1;
    }
    proof {
        assert(vals.subrange(0, txos@.len() as int) =~= vals);
    }
    Some(acc)
}

/// Sums the values of a vector of notes, or reports that the total does
/// not fit in 64 bits.
fn sum_note_values(notes: &Vec<Note>) -> (r: Option<u64>)
    ensures
        r matches Some(v) ==> v == sum_values(notes@.map_values(|n: Note| n.value)),
        r is Some <==> sum_values(notes@.map_values(|n: Note| n.value)) <= u64::MAX,
{
    let ghost vals = notes@.map_values(|n: Note| n.value);
    let mut acc: u64 = 0;
    let mut i: usize = 0;
    while i < notes.len()
        invariant
            0 <= i <= notes@.len(),
            vals == notes@.map_values(|n: Note| n.value),
            acc == sum_values(vals.subrange(0, i as int)),
        decreases notes@.len() - i,
    {
        let v = notes[i].value;
        proof {
            let t = vals.subrange(0, i as int + 1);
            assert(t.drop_last() =~= vals.subrange(0, i as int));
            assert(t.last() == v);
        }
        if v > u64::MAX - acc {
            proof {
                lemma_sum_values_prefix(vals, i as int + 1);
            }
            return None;
        }
        acc = acc + v;
        i = i + 1;
    }
    proof {
        assert(vals.subrange(0, notes@.len() as int) =~= vals);
    }
    Some(acc)
}

/// Sums a vector of 64-bit values, or reports that the total does not fit
/// in 64 bits.
fn sum_u64_values(vals: &Vec<u64>) -> (r: Option<u64>)
    ensures
        r matches Some(v) ==> v == sum_values(vals@),
        r is Some <==> sum_values(vals@) <= u64::MAX,
{
    let mut acc: u64 = 0;
    let mut i: usize = 0;
    while i < vals.len()
        invariant
            0 <= i <= vals@.len(),
            acc == sum_values(vals@.subrange(0, i as int)),
        decreases vals@.len() - i,
    {
        let v = vals[i];
        proof {
            let t = vals@.subrange(0, i as int + 1);
            assert(t.drop_last() =~= vals@.subrange(0, i as int));
            assert(t.last() == v);
        }
        if v > u64::MAX - acc {
            proof {
                lemma_sum_values_prefix(vals@, i as int + 1);
            }
            return None;
        }
        acc = acc + v;
        i = i + 1;
    }
    proof {
        assert(vals@.subrange(0, vals@.len() as int) =~= vals@);
    }
    Some(acc)
}

/// Whether `t` occurs among the first `k` entries of `s`.
pub open spec fn among(s: Seq<TXO>, k: int, t: TXO) -> bool {
    exists|j: int| 0 <= j < k && s[j] == t
}

/// Extending the prefix by one entry adds exactly that entry's occurrences.
proof fn lemma_among_step(s: Seq<TXO>, k: int)
    requires
        0 <= k < s.len(),
    ensures
        forall|t: TXO| among(s, k + 1, t) <==> (among(s, k, t) || s[k] == t),
{
    assert forall|t: TXO| among(s, k + 1, t) implies (among(s, k, t) || s[k] == t) by {
        let j = choose|j: int| 0 <= j < k + 1 && s[j] == t;
        if j < k {
            assert(among(s, k, t));
        }
    }
    assert forall|t: TXO| (among(s, k, t) || s[k] == t) implies among(s, k + 1, t) by {
        if among(s, k, t) {
            let j = choose|j: int| 0 <= j < k && s[j] == t;
            assert(0 <= j < k + 1 && s[j] == t);
        } else {
            assert(0 <= k < k + 1 && s[k] == t);
        }
    }
}

/// Occurring among all entries is the same as occurring at all.
proof fn lemma_among_all(s: Seq<TXO>)
    ensures
        forall|t: TXO| among(s, s.len() as int, t) <==> s.contains(t),
{
    assert forall|t: TXO| among(s, s.len() as int, t) implies s.contains(t) by {
        let j = choose|j: int| 0 <= j < s.len() && s[j] == t;
        assert(s[j] == t);
    }
    assert forall|t: TXO| s.contains(t) implies among(s, s.len() as int, t) by {
        let j = choose|j: int| 0 <= j < s.len() && s[j] == t;
        assert(0 <= j < s.len() && s[j] == t);
    }
}

/// Whether position `p` holds the first entry for note `n` in `notes`.
pub open spec fn is_first_match(notes: Seq<(Note, Spentness)>, n: Note, p: int) -> bool {
    &&& 0 <= p < notes.len()
    &&& notes[p].0 == n
    &&& forall|j: int| 0 <= j < p ==> notes[j].0 != n
}

/// Whether note `n` can be spent against `notes`: its first entry, if any,
/// is unspent.
pub open spec fn spend_ok(notes: Seq<(Note, Spentness)>, n: Note) -> bool {
    exists|p: int| is_first_match(notes, n, p) && notes[p].1 == Spentness::Unspent
}

/// The ledger context: accepted transactions, the set of unspent
/// transparent outputs, every note ever created with its spentness, and
/// the total issuance so far.
#[derive(Debug, Clone)]
pub struct BCContext {
    /// The transactions accepted so far, oldest first.
    pub transactions: VecDeque<BCTransaction>,
    /// The unspent transparent outputs; no output appears twice.
    pub utxo_set: Vec<TXO>,
    /// Every note created so far, each with its spentness.
    pub notes: Vec<(Note, Spentness)>,
    /// The sum of all issuance accepted so far.
    pub total_issuance: u64,
}

impl BCContext {
    /// The context's well-formedness: the unspent-output set holds no
    /// output twice.
    pub open spec fn wf(&self) -> bool {
        distinct_txos(self.utxo_set@)
    }

    /// Creates an empty context: no transactions, no outputs, no notes, no
    /// issuance.
    pub fn new() -> (r: Self)
        ensures
            r.wf(),
            r.transactions@.len() == 0,
            r.utxo_set@.len() == 0,
            r.notes@.len() == 0,
            r.total_issuance == 0,
    {
        BCContext {
            transactions: VecDeque::new(),
            utxo_set: Vec::new(),
            notes: Vec::new(),
            total_issuance: 0,
        }
    }

    /// Whether every listed note is spendable here.
    pub open spec fn spec_can_spend(&self, to_spend: Seq<Note>) -> bool {
        forall|i: int| 0 <= i < to_spend.len() ==> spend_ok(self.notes@, to_spend[i])
    }

    /// Whether every note in `to_spend` has an unspent first entry in this
    /// context.
    pub fn can_spend(&self, to_spend: &[Note]) -> (r: bool)
        ensures
            r == self.spec_can_spend(to_spend@),
    {
        let mut i: usize = 0;
        while i < to_spend.len()
            invariant
                0 <= i <= to_spend@.len(),
                forall|k: int| 0 <= k < i ==> spend_ok(self.notes@, to_spend@[k]),
            decreases to_spend@.len() - i,
        {
            match find_first_note(&self.notes, &to_spend[i]) {
                Some(p) => {
                    if !(self.notes[p].1 == Spentness::Unspent) {
                        return false;
                    }
                },
                None => {
                    return false;
                },
            }
            i = i + 1;
        }
        true
    }

    /// Whether `tx` is valid against this context: every transparent input
    /// is an unspent output here, and every shielded input is spendable.
    pub open spec fn spec_is_valid(&self, tx: &BCTransaction) -> bool {
        &&& forall|i: int|
            0 <= i < tx.transparent_inputs@.len() ==> self.utxo_set@.contains(
                tx.transparent_inputs@[i],
            )
        &&& self.spec_can_spend(tx.shielded_inputs@)
    }

    /// Whether `tx` can be accepted by this context.
    pub fn is_valid(&self, tx: &BCTransaction) -> (r: bool)
        ensures
            r == self.spec_is_valid(tx),
    {
        let mut i: usize = 0;
        while i < tx.transparent_inputs.len()
            invariant
                0 <= i <= tx.transparent_inputs@.len(),
                forall|k: int|
                    0 <= k < i ==> self.utxo_set@.contains(tx.transparent_inputs@[k]),
            decreases tx.transparent_inputs@.len() - i,
        {
            if !utxo_contains(&self.utxo_set, &tx.transparent_inputs[i]) {
                return false;
            }
            i = i + 1;
        }
        self.can_spend(tx.shielded_inputs.as_slice())
    }

    /// Accepts `tx` if it is valid: spent outputs leave the unspent set,
    /// new outputs enter it, spent notes are marked, new notes are
    /// recorded unspent, and the issuance total grows.  An invalid
    /// transaction leaves the context unchanged.
    pub fn add_if_valid(&mut self, tx: BCTransaction) -> (r: bool)
        requires
            old(self).wf(),
            old(self).total_issuance + tx.issuance <= u64::MAX,
        ensures
            final(self).wf(),
            r == old(self).spec_is_valid(&tx),
            !r ==> *final(self) == *old(self),
            r ==> {
                &&& forall|t: TXO|
                    final(self).utxo_set@.contains(t) <==> ((old(self).utxo_set@.contains(t)
                        && !tx.transparent_inputs@.contains(t))
                        || tx.transparent_outputs@.contains(t))
                &&& final(self).notes@.len() == old(self).notes@.len()
                    + tx.shielded_outputs@.len()
                &&& forall|p: int|
                    0 <= p < old(self).notes@.len() ==> final(self).notes@[p].0 == old(
                        self,
                    ).notes@[p].0 && final(self).notes@[p].1 == (
                    if old(self).notes@[p].1 == Spentness::Spent || (exists|i: int|
                        0 <= i < tx.shielded_inputs@.len() && is_first_match(
                            old(self).notes@,
                            tx.shielded_inputs@[i],
                            p,
                        )) {
                        Spentness::Spent
                    } else {
                        Spentness::Unspent
                    })
                &&& forall|k: int|
                    0 <= k < tx.shielded_outputs@.len() ==> final(self).notes@[old(
                        self,
                    ).notes@.len() + k] == (tx.shielded_outputs@[k], Spentness::Unspent)
                &&& final(self).total_issuance == old(self).total_issuance + tx.issuance
                &&& final(self).transactions@ == old(self).transactions@.push(tx)
            },
    {
        if !self.is_valid(&tx) {
            return false;
        }
        let ghost notes0 = self.notes@;
        let ghost orig_utxos = self.utxo_set@;
        let ghost ins = tx.transparent_inputs@;
        let ghost outs = tx.transparent_outputs@;
        let mut i: usize = 0;
        while i < tx.transparent_inputs.len()
            invariant
                0 <= i <= ins.len(),
                ins == tx.transparent_inputs@,
                orig_utxos == old(self).utxo_set@,
                self.wf(),
                self.transactions == old(self).transactions,
                self.notes == old(self).notes,
                self.total_issuance == old(self).total_issuance,
                utxo_tracks(self.utxo_set@, orig_utxos, ins, i as int, ins, 0),
            decreases ins.len() - i,
        {
            proof {
                lemma_among_step(ins, i as int);
            }
            let ghost prev = self.utxo_set@;
            utxo_remove(&mut self.utxo_set, &tx.transparent_inputs[i]);
            proof {
                assert forall|t: TXO|
                    self.utxo_set@.contains(t) <==> ((orig_utxos.contains(t) && !among(
                        ins,
                        i as int + 1,
                        t,
                    )) || among(ins, 0, t)) by {
                    assert(self.utxo_set@.contains(t) <==> (prev.contains(t) && t != ins[i as int]));
                    assert(prev.contains(t) <==> ((orig_utxos.contains(t) && !among(ins, i as int, t))
                        || among(ins, 0, t)));
                }
            }
            i = i + 1;
        }
        proof {
            lemma_among_all(ins);
        }
        let mut k: usize = 0;
        while k < tx.transparent_outputs.len()
            invariant
                0 <= k <= outs.len(),
                ins == tx.transparent_inputs@,
                outs == tx.transparent_outputs@,
                orig_utxos == old(self).utxo_set@,
                self.wf(),
                self.transactions == old(self).transactions,
                self.notes == old(self).notes,
                self.total_issuance == old(self).total_issuance,
                utxo_tracks(self.utxo_set@, orig_utxos, ins, ins.len() as int, outs, k as int),
            decreases outs.len() - k,
        {
            proof {
                lemma_among_step(outs, k as int);
            }
            let ghost prev = self.utxo_set@;
            utxo_insert(&mut self.utxo_set, &tx.transparent_outputs[k]);
            proof {
                assert forall|t: TXO|
                    self.utxo_set@.contains(t) <==> ((orig_utxos.contains(t) && !among(
                        ins,
                        ins.len() as int,
                        t,
                    )) || among(outs, k as int + 1, t)) by {
                    assert(self.utxo_set@.contains(t) <==> (prev.contains(t) || t
                        == outs[k as int]));
                    assert(prev.contains(t) <==> ((orig_utxos.contains(t) && !among(
                        ins,
                        ins.len() as int,
                        t,
                    )) || among(outs, k as int, t)));
                }
            }
            k = k + 1;
        }
        proof {
            lemma_among_all(ins);
            lemma_among_all(outs);
            assert forall|t: TXO|
                self.utxo_set@.contains(t) <==> ((old(self).utxo_set@.contains(t)
                    && !tx.transparent_inputs@.contains(t)) || tx.transparent_outputs@.contains(
                    t,
                )) by {
                assert(self.utxo_set@.contains(t) <==> ((orig_utxos.contains(t) && !among(
                    ins,
                    ins.len() as int,
                    t,
                )) || among(outs, outs.len() as int, t)));
            }
        }
        let ghost utxos_mid = self.utxo_set;
        let mut s: usize = 0;
        while s < tx.shielded_inputs.len()
            invariant
                0 <= s <= tx.shielded_inputs@.len(),
                self.wf(),
                self.transactions == old(self).transactions,
                self.utxo_set == utxos_mid,
                self.total_issuance == old(self).total_issuance,
                self.notes@.len() == notes0.len(),
                forall|p: int|
                    0 <= p < notes0.len() ==> self.notes@[p].0 == notes0[p].0
                        && self.notes@[p].1 == (
                    if notes0[p].1 == Spentness::Spent || (exists|i: int|
                        0 <= i < s && is_first_match(notes0, tx.shielded_inputs@[i], p)) {
                        Spentness::Spent
                    } else {
                        Spentness::Unspent
                    }),
            decreases tx.shielded_inputs@.len() - s,
        {
            let ghost notes_before = self.notes@;
            match find_first_note(&self.notes, &tx.shielded_inputs[s]) {
                Some(p) => {
                    let pair = (self.notes[p].0, Spentness::Spent);
                    self.notes.set(p, pair);
                    proof {
                        assert(is_first_match(notes_before, tx.shielded_inputs@[s as int], p as int));
                        assert(is_first_match(notes0, tx.shielded_inputs@[s as int], p as int));
                    }
                },
                None => {
                    proof {
                        assert(forall|p: int|
                            0 <= p < notes0.len() ==> !is_first_match(
                                notes0,
                                tx.shielded_inputs@[s as int],
                                p,
                            ));
                    }
                },
            }
            s = s + 1;
        }
        let mut o: usize = 0;
        while o < tx.shielded_outputs.len()
            invariant
                0 <= o <= tx.shielded_outputs@.len(),
                self.wf(),
                self.transactions == old(self).transactions,
                self.utxo_set == utxos_mid,
                self.total_issuance == old(self).total_issuance,
                self.notes@.len() == notes0.len() + o,
                forall|p: int|
                    0 <= p < notes0.len() ==> self.notes@[p].0 == notes0[p].0
                        && self.notes@[p].1 == (
                    if notes0[p].1 == Spentness::Spent || (exists|i: int|
                        0 <= i < tx.shielded_inputs@.len() && is_first_match(
                            notes0,
                            tx.shielded_inputs@[i],
                            p,
                        )) {
                        Spentness::Spent
                    } else {
                        Spentness::Unspent
                    }),
                forall|q: int|
                    0 <= q < o ==> self.notes@[notes0.len() + q] == (
                    tx.shielded_outputs@[q],
                    Spentness::Unspent,
                ),
            decreases tx.shielded_outputs@.len() - o,
        {
            let pair = (tx.shielded_outputs[o], Spentness::Unspent);
            self.notes.push(pair);
            o = o + 1;
        }
        self.total_issuance = self.total_issuance + tx.issuance;
        self.transactions.push_back(tx);
        true
    }
}

/// Tracks the unspent-output set through one transaction's application:
/// the current set holds exactly the original outputs not among the first
/// `ni` inputs, plus the first `no` new outputs.
spec fn utxo_tracks(cur: Seq<TXO>, orig: Seq<TXO>, ins: Seq<TXO>, ni: int, outs: Seq<TXO>, no: int) -> bool {
    forall|t: TXO|
        #![trigger cur.contains(t)]
        cur.contains(t) <==> ((orig.contains(t) && !among(ins, ni, t)) || among(outs, no, t))
}

/// Whether no transparent output occurs twice in `s`.
pub open spec fn distinct_txos(s: Seq<TXO>) -> bool {
    forall|a: int, b: int| #![trigger s[a], s[b]] 0 <= a < b < s.len() ==> s[a] != s[b]
}

/// Whether the unspent-output set holds `t`.
fn utxo_contains(set: &Vec<TXO>, t: &TXO) -> (r: bool)
    ensures
        r == set@.contains(*t),
{
    let mut i: usize = 0;
    while i < set.len()
        invariant
            0 <= i <= set@.len(),
            forall|j: int| 0 <= j < i ==> set@[j] != *t,
        decreases set@.len() - i,
    {
        if set[i] == *t {
            return true;
        }
        i = i + 1;
    }
    false
}

/// Removes `t` from the unspent-output set, if present.
fn utxo_remove(set: &mut Vec<TXO>, t: &TXO)
    requires
        distinct_txos(old(set)@),
    ensures
        distinct_txos(final(set)@),
        forall|x: TXO| final(set)@.contains(x) <==> (old(set)@.contains(x) && x != *t),
{
    let ghost orig = set@;
    let mut i: usize = 0;
    while i < set.len()
        invariant
            0 <= i <= set@.len(),
            set@ == orig,
            orig == old(set)@,
            distinct_txos(orig),
            forall|j: int| 0 <= j < i ==> set@[j] != *t,
        decreases set@.len() - i,
    {
        if set[i] == *t {
            set.remove(i);
            proof {
                orig.remove_ensures(i as int);
                assert forall|x: TXO| set@.contains(x) implies (orig.contains(x) && x != *t)
                by {
                    let w = choose|w: int| 0 <= w < set@.len() && set@[w] == x;
                    assert(set@[w] == x);
                    assert(set@ == orig.remove(i as int));
                    assert(orig[i as int] == *t);
                    if w < i as int {
                        assert(set@[w] == orig[w]);
                        assert(orig[w] != orig[i as int]);
                        assert(orig[w] == x);
                    } else {
                        assert(set@[w] == orig[w + 1]);
                        assert(orig[i as int] != orig[w + 1]);
                        assert(orig[w + 1] == x);
                    }
                    assert(x != *t);
                }
                assert forall|x: TXO| (orig.contains(x) && x != *t) implies set@.contains(x) by {
                    let w = choose|w: int| 0 <= w < orig.len() && orig[w] == x;
                    assert(orig[i as int] == *t);
                    assert(w != i as int);
                    if w < i as int {
                        assert(set@[w] == x);
                    } else {
                        assert(set@[w - 1] == x);
                    }
                }
                assert forall|a: int, b: int| 0 <= a < b < set@.len() implies set@[a] != set@[b]
                by {
                    assert(distinct_txos(orig));
                    if b < i as int {
                        assert(set@[a] == orig[a] && set@[b] == orig[b]);
                    } else if a < i as int {
                        assert(set@[a] == orig[a] && set@[b] == orig[b + 1]);
                    } else {
                        assert(set@[a] == orig[a + 1] && set@[b] == orig[b + 1]);
                    }
                }
            }
            return;
        }
        i = i + 1;
    }
    proof {
        assert forall|x: TXO| orig.contains(x) && x != *t implies set@.contains(x) by {}
        assert forall|x: TXO| set@.contains(x) implies (orig.contains(x) && x != *t) by {
            let w = choose|w: int| 0 <= w < set@.len() && set@[w] == x;
        }
    }
}

/// Adds `t` to the unspent-output set, unless it is already present.
fn utxo_insert(set: &mut Vec<TXO>, t: &TXO)
    requires
        distinct_txos(old(set)@),
    ensures
        distinct_txos(final(set)@),
        forall|x: TXO| final(set)@.contains(x) <==> (old(set)@.contains(x) || x == *t),
{
    if !utxo_contains(set, t) {
        let ghost orig = set@;
        set.push(*t);
        proof {
            assert forall|x: TXO| set@.contains(x) implies (orig.contains(x) || x == *t) by {
                let w = choose|w: int| 0 <= w < set@.len() && set@[w] == x;
                if w < orig.len() {
                    assert(orig[w] == x);
                }
            }
            assert forall|x: TXO| (orig.contains(x) || x == *t) implies set@.contains(x) by {
                if orig.contains(x) {
                    let w = choose|w: int| 0 <= w < orig.len() && orig[w] == x;
                    assert(set@[w] == x);
                } else {
                    assert(set@[orig.len() as int] == x);
                }
            }
        }
    }
}

/// Finds the first entry for note `n`, if there is one.
fn find_first_note(notes: &Vec<(Note, Spentness)>, n: &Note) -> (r: Option<usize>)
    ensures
        r matches Some(p) ==> is_first_match(notes@, *n, p as int),
        r is None ==> forall|p: int| 0 <= p < notes@.len() ==> notes@[p].0 != *n,
{
    let mut i: usize = 0;
    while i < notes.len()
        invariant
            0 <= i <= notes@.len(),
            forall|j: int| 0 <= j < i ==> notes@[j].0 != *n,
        decreases notes@.len() - i,
    {
        if notes[i].0 == *n {
            return Some(i);
        }
        i = i + 1;
    }
    None
}

/// A block in the chain: an optional parent, a cumulative score, the
/// block's transactions, and a unique hash.
#[derive(Debug)]
pub struct BCBlock {
    /// The block this one extends, if any.
    pub parent: Option<Box<BCBlock>>,
    /// The chain score up to and including this block.
    pub score: i64,
    /// The transactions this block carries.
    pub transactions: Vec<BCTransaction>,
    /// The block's unique hash.
    pub hash: BlockHash,
}

impl BCBlock {
    /// Whether a transaction list is valid on its own, outside any chain
    /// context: non-empty, led by exactly one coinbase, with fees summing
    /// to zero.
    pub open spec fn spec_noncontextually_valid(txs: Seq<BCTransaction>) -> bool {
        &&& txs.len() > 0
        &&& txs[0].spec_is_coinbase()
        &&& forall|i: int| 1 <= i < txs.len() ==> !txs[i].spec_is_coinbase()
        &&& sum_fees(txs) == 0
    }

    /// Builds a block over `parent` with the given transactions, scoring
    /// `added_score` above the parent's score.  Unless `allow_invalid` is
    /// set, the block must be noncontextually valid; an invalid one is
    /// rejected without drawing a hash.
    pub fn new(
        parent: Option<BCBlock>,
        added_score: i64,
        transactions: Vec<BCTransaction>,
        allow_invalid: bool,
        source: &mut IdSource,
    ) -> (r: Result<Self, BCError>)
        requires
            old(source).spec_next() < u64::MAX,
            parent matches Some(p) ==> i64::MIN <= p.score + added_score <= i64::MAX,
        ensures
            r is Ok <==> (allow_invalid || Self::spec_noncontextually_valid(transactions@)),
            r matches Ok(b) ==> {
                &&& b.score == (match parent {
                    Some(p) => p.score + added_score,
                    None => added_score as int,
                })
                &&& b.transactions@ == transactions@
                &&& b.hash.id == old(source).spec_next()
                &&& (parent is Some <==> b.parent is Some)
                &&& (b.parent matches Some(boxed) ==> parent matches Some(p) && *boxed == p)
                &&& final(source).spec_next() == old(source).spec_next() + 1
            },
            r is Err ==> *final(source) == *old(source),
            r matches Err(e) ==> !allow_invalid && e == spec_noncontextual_error(transactions@),
    {
        let score: i64 = match &parent {
            Some(p) => p.score + added_score,
            None => added_score,
        };
        if !allow_invalid {
            match check_noncontextual(&transactions) {
                Ok(()) => {},
                Err(e) => {
                    return Err(e);
                },
            }
        }
        let hash = BlockHash::new(source);
        let parent = match parent {
            Some(p) => Some(Box::new(p)),
            None => None,
        };
        Ok(BCBlock { parent, score, transactions, hash })
    }

    /// Checks the block's own validity: non-empty, led by exactly one
    /// coinbase, fees summing to zero.
    pub fn assert_noncontextually_valid(&self) -> (r: Result<(), BCError>)
        ensures
            r is Ok <==> Self::spec_noncontextually_valid(self.transactions@),
            r matches Err(e) ==> e == spec_noncontextual_error(self.transactions@),
    {
        check_noncontextual(&self.transactions)
    }
}

/// The error a noncontextual validity check reports for an invalid
/// transaction list: the first rule it breaks.
pub open spec fn spec_noncontextual_error(txs: Seq<BCTransaction>) -> BCError {
    if txs.len() == 0 {
        BCError::EmptyBlock
    } else if !txs[0].spec_is_coinbase() {
        BCError::MissingCoinbase
    } else if exists|i: int| 1 <= i < txs.len() && txs[i].spec_is_coinbase() {
        BCError::ExtraCoinbase
    } else {
        BCError::UnbalancedFees
    }
}

/// Checks a transaction list for noncontextual validity.
fn check_noncontextual(txs: &Vec<BCTransaction>) -> (r: Result<(), BCError>)
    ensures
        r is Ok <==> BCBlock::spec_noncontextually_valid(txs@),
        r matches Err(e) ==> e == spec_noncontextual_error(txs@),
{
    if txs.len() == 0 {
        return Err(BCError::EmptyBlock);
    }
    if !txs[0].is_coinbase() {
        return Err(BCError::MissingCoinbase);
    }
    let mut i: usize = 1;
    while i < txs.len()
        invariant
            1 <= i <= txs@.len(),
            txs@[0].spec_is_coinbase(),
            forall|j: int| 1 <= j < i ==> !txs@[j].spec_is_coinbase(),
        decreases txs@.len() - i,
    {
        if txs[i].is_coinbase() {
            return Err(BCError::ExtraCoinbase);
        }
        i = i + 1;
    }
    let mut acc: i128 = 0;
    let mut k: usize = 0;
    while k < txs.len()
        invariant
            0 <= k <= txs@.len(),
            acc == sum_fees(txs@.subrange(0, k as int)),
            -9223372036854775808 * (k as int) <= acc <= 9223372036854775807 * (k as int),
        decreases txs@.len() - k,
    {
        proof {
            let t = txs@.subrange(0, k as int + 1);
            assert(t.drop_last() =~= txs@.subrange(0, k as int));
            assert(t.last() == txs@[k as int]);
        }
        acc = acc + txs[k].fee as i128;
        k = k + 1;
    }
    proof {
        assert(txs@.subrange(0, txs@.len() as int) =~= txs@);
    }
    if acc != 0 {
        return Err(BCError::UnbalancedFees);
    }
    Ok(())
}

} // verus!

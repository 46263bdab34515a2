//! Domain values of the engine and their big-endian byte encodings.

use crate::store::StoreCodec;
use vstd::prelude::*;

verus! {

/// A client of the engine.
pub type ClientId = u16;

/// A transaction of a client.
pub type TrxId = u32;

/// Big-endian bytes of a 16-bit value.
pub open spec fn u16_be(v: u16) -> Seq<u8> {
    seq![(v >> 8u16) as u8, v as u8]
}

/// Big-endian bytes of a 32-bit value.
pub open spec fn u32_be(v: u32) -> Seq<u8> {
    seq![(v >> 24u32) as u8, (v >> 16u32) as u8, (v >> 8u32) as u8, v as u8]
}

/// Big-endian bytes of a 64-bit value.
pub open spec fn u64_be(v: u64) -> Seq<u8> {
    seq![
        (v >> 56u64) as u8,
        (v >> 48u64) as u8,
        (v >> 40u64) as u8,
        (v >> 32u64) as u8,
        (v >> 24u64) as u8,
        (v >> 16u64) as u8,
        (v >> 8u64) as u8,
        v as u8,
    ]
}

/// The 16-bit value whose big-endian bytes start `b` at `i`.
pub open spec fn be_u16_at(b: Seq<u8>, i: int) -> u16 {
    ((b[i] as u16) << 8u16) | (b[i + 1] as u16)
}

/// The 32-bit value whose big-endian bytes start `b` at `i`.
pub open spec fn be_u32_at(b: Seq<u8>, i: int) -> u32 {
    ((b[i] as u32) << 24u32) | ((b[i + 1] as u32) << 16u32) | ((b[i + 2] as u32) << 8u32) | (b[i
        + 3] as u32)
}

/// The 64-bit value whose big-endian bytes start `b` at `i`.
pub open spec fn be_u64_at(b: Seq<u8>, i: int) -> u64 {
    ((b[i] as u64) << 56u64) | ((b[i + 1] as u64) << 48u64) | ((b[i + 2] as u64) << 40u64) | ((b[i
        + 3] as u64) << 32u64) | ((b[i + 4] as u64) << 24u64) | ((b[i + 5] as u64) << 16u64) | ((b[i
        + 6] as u64) << 8u64) | (b[i + 7] as u64)
}

/// Reading back the big-endian bytes of a 16-bit value gives the value.
pub proof fn lemma_u16_be_roundtrip(v: u16)
    ensures
        be_u16_at(u16_be(v), 0) == v,
{
    let b0 = (v >> 8u16) as u8;
    let b1 = v as u8;
    assert((((b0 as u16) << 8u16) | (b1 as u16)) == v) by (bit_vector)
        requires
            b0 == (v >> 8u16) as u8,
            b1 == v as u8,
    ;
}

/// Reading back the big-endian bytes of a 32-bit value gives the value.
pub proof fn lemma_u32_be_roundtrip(v: u32)
    ensures
        be_u32_at(u32_be(v), 0) == v,
{
    let b0 = (v >> 24u32) as u8;
    let b1 = (v >> 16u32) as u8;
    let b2 = (v >> 8u32) as u8;
    let b3 = v as u8;
    assert((((b0 as u32) << 24u32) | ((b1 as u32) << 16u32) | ((b2 as u32) << 8u32) | (b3 as u32))
        == v) by (bit_vector)
        requires
            b0 == (v >> 24u32) as u8,
            b1 == (v >> 16u32) as u8,
            b2 == (v >> 8u32) as u8,
            b3 == v as u8,
    ;
}

/// Reading back the big-endian bytes of a 64-bit value gives the value.
pub proof fn lemma_u64_be_roundtrip(v: u64)
    ensures
        be_u64_at(u64_be(v), 0) == v,
{
    let b0 = (v >> 56u64) as u8;
    let b1 = (v >> 48u64) as u8;
    let b2 = (v >> 40u64) as u8;
    let b3 = (v >> 32u64) as u8;
    let b4 = (v >> 24u64) as u8;
    let b5 = (v >> 16u64) as u8;
    let b6 = (v >> 8u64) as u8;
    let b7 = v as u8;
    assert((((b0 as u64) << 56u64) | ((b1 as u64) << 48u64) | ((b2 as u64) << 40u64) | ((b3 as u64)
        << 32u64) | ((b4 as u64) << 24u64) | ((b5 as u64) << 16u64) | ((b6 as u64) << 8u64) | (b7 as u64))
        == v) by (bit_vector)
        requires
            b0 == (v >> 56u64) as u8,
            b1 == (v >> 48u64) as u8,
            b2 == (v >> 40u64) as u8,
            b3 == (v >> 32u64) as u8,
            b4 == (v >> 24u64) as u8,
            b5 == (v >> 16u64) as u8,
            b6 == (v >> 8u64) as u8,
            b7 == v as u8,
    ;
}

/// The settlement state of a recorded deposit.
#[derive(Debug, Clone, Copy, PartialEq, Eq, Structural)]
pub enum TxStatus {
    Normal,
    Disputed,
    ChargedBack,
}

/// The byte that stands for a status in a record's encoding.
pub open spec fn status_byte(s: TxStatus) -> u8 {
    match s {
        TxStatus::Normal => 0,
        TxStatus::Disputed => 1,
        TxStatus::ChargedBack => 2,
    }
}

/// The status that a byte stands for, if any.
pub open spec fn status_from_byte(b: u8) -> Option<TxStatus> {
    if b == 0 {
        Some(TxStatus::Normal)
    } else if b == 1 {
        Some(TxStatus::Disputed)
    } else if b == 2 {
        Some(TxStatus::ChargedBack)
    } else {
        None
    }
}

impl TxStatus {
    pub fn to_byte(self) -> (b: u8)
        ensures
            b == status_byte(self),
    {
        match self {
            TxStatus::Normal => 0,
            TxStatus::Disputed => 1,
            TxStatus::ChargedBack => 2,
        }
    }
}

/// A deposit as the engine records it, keyed by client and transaction.
#[derive(Debug, Clone, PartialEq, Eq, Structural)]
pub struct TransactionRecord {
    pub client_id: ClientId,
    pub tx_id: TrxId,
    pub amount: u64,
    pub status: TxStatus,
}

/// The fifteen bytes of a record: client, transaction and amount big-endian,
/// then the status byte.
pub open spec fn record_bytes(r: TransactionRecord) -> Seq<u8> {
    u16_be(r.client_id) + u32_be(r.tx_id) + u64_be(r.amount) + seq![status_byte(r.status)]
}

/// The record that a byte string starts with: at least fifteen bytes, and a
/// known status byte at offset 14.
pub open spec fn record_from_bytes(b: Seq<u8>) -> Option<TransactionRecord> {
    if b.len() < 15 {
        None
    } else {
        match status_from_byte(b[14]) {
            Some(status) => Some(
                TransactionRecord {
                    client_id: be_u16_at(b, 0),
                    tx_id: be_u32_at(b, 2),
                    amount: be_u64_at(b, 6),
                    status,
                },
            ),
            None => None,
        }
    }
}

impl TransactionRecord {
    pub fn to_bytes(&self) -> (bytes: [u8; 15])
        ensures
            bytes@ == record_bytes(*self),
    {
        let c = self.client_id;
        let t = self.tx_id;
        let a = self.amount;
        let bytes = [
            (c >> 8u16) as u8,
            c as u8,
            (t >> 24u32) as u8,
            (t >> 16u32) as u8,
            (t >> 8u32) as u8,
            t as u8,
            (a >> 56u64) as u8,
            (a >> 48u64) as u8,
            (a >> 40u64) as u8,
            (a >> 32u64) as u8,
            (a >> 24u64) as u8,
            (a >> 16u64) as u8,
            (a >> 8u64) as u8,
            a as u8,
            self.status.to_byte(),
        ];
        assert(bytes@ =~= record_bytes(*self));
        bytes
    }

    pub fn from_bytes(bytes: &[u8]) -> (r: Option<TransactionRecord>)
        ensures
            r == record_from_bytes(bytes@),
    {
        if bytes.len() < 15 {
            return None;
        }
        let status = if bytes[14] == 0 {
            TxStatus::Normal
        } else if bytes[14] == 1 {
            TxStatus::Disputed
        } else if bytes[14] == 2 {
            TxStatus::ChargedBack
        } else {
            return None;
        };
        let client_id: u16 = ((bytes[0] as u16) << 8u16) | (bytes[1] as u16);
        let tx_id: u32 = ((bytes[2] as u32) << 24u32) | ((bytes[3] as u32) << 16u32) | ((bytes[4] as u32)
            << 8u32) | (bytes[5] as u32);
        let amount: u64 = ((bytes[6] as u64) << 56u64) | ((bytes[7] as u64) << 48u64) | ((bytes[8] as u64)
            << 40u64) | ((bytes[9] as u64) << 32u64) | ((bytes[10] as u64) << 24u64) | ((bytes[11] as u64)
            << 16u64) | ((bytes[12] as u64) << 8u64) | (bytes[13] as u64);
        Some(TransactionRecord { client_id, tx_id, amount, status })
    }
}

/// Decoding a record's bytes gives the record back.
pub proof fn lemma_record_roundtrip(r: TransactionRecord)
    ensures
        record_from_bytes(record_bytes(r)) == Some(r),
{
    let b = record_bytes(r);
    lemma_u16_be_roundtrip(r.client_id);
    lemma_u32_be_roundtrip(r.tx_id);
    lemma_u64_be_roundtrip(r.amount);
    assert(b.subrange(0, 2) =~= u16_be(r.client_id));
    assert(b.subrange(2, 6) =~= u32_be(r.tx_id));
    assert(b.subrange(6, 14) =~= u64_be(r.amount));
    assert(be_u16_at(b, 0) == be_u16_at(u16_be(r.client_id), 0));
    assert(be_u32_at(b, 2) == be_u32_at(u32_be(r.tx_id), 0));
    assert(be_u64_at(b, 6) == be_u64_at(u64_be(r.amount), 0));
}

impl StoreCodec for TransactionRecord {
    open spec fn decode_spec(bytes: Seq<u8>) -> Option<Self> {
        record_from_bytes(bytes)
    }

    open spec fn encode_spec(&self) -> Seq<u8> {
        record_bytes(*self)
    }

    proof fn lemma_decode_encode(v: Self) {
        lemma_record_roundtrip(v);
    }

    fn decode(bytes: &[u8]) -> (r: Option<Self>) {
        TransactionRecord::from_bytes(bytes)
    }

    fn encode(&self) -> (r: Vec<u8>) {
        let bytes = self.to_bytes();
        vstd::slice::slice_to_vec(bytes.as_slice())
    }
}

impl<'a> TryFrom<&'a [u8]> for TransactionRecord {
    type Error = ();

    fn try_from(bytes: &'a [u8]) -> (r: Result<Self, ()>) {
        match TransactionRecord::from_bytes(bytes) {
            Some(rec) => Ok(rec),
            None => Err(()),
        }
    }
}

impl<'a> vstd::std_specs::convert::TryFromSpecImpl<&'a [u8]> for TransactionRecord {
    open spec fn obeys_try_from_spec() -> bool {
        true
    }

    open spec fn try_from_spec(bytes: &'a [u8]) -> Result<Self, ()> {
        match record_from_bytes(bytes@) {
            Some(rec) => Ok(rec),
            None => Err(()),
        }
    }
}

/// A balance in ten-thousandths of a unit.
#[derive(Debug, Clone, Copy, PartialEq, Eq, Structural)]
pub struct Amount(pub u64);

impl Default for Amount {
    fn default() -> (r: Amount)
        ensures
            r == Amount(0),
    {
        Amount(0)
    }
}

/// The amount that a byte string starts with: at least eight bytes, read
/// big-endian.
pub open spec fn amount_from_bytes(b: Seq<u8>) -> Option<Amount> {
    if b.len() < 8 {
        None
    } else {
        Some(Amount(be_u64_at(b, 0)))
    }
}

impl Amount {
    pub fn from_bytes(bytes: &[u8]) -> (r: Option<Amount>)
        ensures
            r == amount_from_bytes(bytes@),
    {
        if bytes.len() < 8 {
            return None;
        }
        let v: u64 = ((bytes[0] as u64) << 56u64) | ((bytes[1] as u64) << 48u64) | ((bytes[2] as u64)
            << 40u64) | ((bytes[3] as u64) << 32u64) | ((bytes[4] as u64) << 24u64) | ((bytes[5] as u64)
            << 16u64) | ((bytes[6] as u64) << 8u64) | (bytes[7] as u64);
        Some(Amount(v))
    }

    pub fn to_bytes(&self) -> (r: Vec<u8>)
        ensures
            r@ == u64_be(self.0),
    {
        let a = self.0;
        let r = vec![
            (a >> 56u64) as u8,
            (a >> 48u64) as u8,
            (a >> 40u64) as u8,
            (a >> 32u64) as u8,
            (a >> 24u64) as u8,
            (a >> 16u64) as u8,
            (a >> 8u64) as u8,
            a as u8,
        ];
        assert(r@ =~= u64_be(a));
        r
    }
}

impl StoreCodec for Amount {
    open spec fn decode_spec(bytes: Seq<u8>) -> Option<Self> {
        amount_from_bytes(bytes)
    }

    open spec fn encode_spec(&self) -> Seq<u8> {
        u64_be(self.0)
    }

    proof fn lemma_decode_encode(v: Self) {
        lemma_amount_roundtrip(v);
    }

    fn decode(bytes: &[u8]) -> (r: Option<Self>) {
        Amount::from_bytes(bytes)
    }

    fn encode(&self) -> (r: Vec<u8>) {
        self.to_bytes()
    }
}

impl<'a> TryFrom<&'a [u8]> for Amount {
    type Error = ();

    fn try_from(bytes: &'a [u8]) -> (r: Result<Self, ()>) {
        match Amount::from_bytes(bytes) {
            Some(a) => Ok(a),
            None => Err(()),
        }
    }
}

impl<'a> vstd::std_specs::convert::TryFromSpecImpl<&'a [u8]> for Amount {
    open spec fn obeys_try_from_spec() -> bool {
        true
    }

    open spec fn try_from_spec(bytes: &'a [u8]) -> Result<Self, ()> {
        match amount_from_bytes(bytes@) {
            Some(a) => Ok(a),
            None => Err(()),
        }
    }
}

impl From<u64> for Amount {
    fn from(v: u64) -> (r: Amount) {
        Amount(v)
    }
}

impl vstd::std_specs::convert::FromSpecImpl<u64> for Amount {
    open spec fn obeys_from_spec() -> bool {
        true
    }

    open spec fn from_spec(v: u64) -> Amount {
        Amount(v)
    }
}

impl From<Amount> for u64 {
    fn from(amt: Amount) -> (r: u64) {
        amt.0
    }
}

impl vstd::std_specs::convert::FromSpecImpl<Amount> for u64 {
    open spec fn obeys_from_spec() -> bool {
        true
    }

    open spec fn from_spec(amt: Amount) -> u64 {
        amt.0
    }
}

/// Decoding an amount's bytes gives the amount back.
pub proof fn lemma_amount_roundtrip(a: Amount)
    ensures
        amount_from_bytes(u64_be(a.0)) == Some(a),
{
    lemma_u64_be_roundtrip(a.0);
}

/// Whether an account is frozen.
#[derive(Debug, Clone, Copy, PartialEq, Eq, Structural)]
pub struct LockStatus(pub bool);

impl Default for LockStatus {
    fn default() -> (r: LockStatus)
        ensures
            r == LockStatus(false),
    {
        LockStatus(false)
    }
}

/// The one byte that stands for a lock status.
pub open spec fn lock_bytes(l: LockStatus) -> Seq<u8> {
    seq![if l.0 { 1u8 } else { 0u8 }]
}

/// The lock status that a byte string starts with: any byte other than zero
/// means locked; an empty string decodes to nothing.
pub open spec fn lock_from_bytes(b: Seq<u8>) -> Option<LockStatus> {
    if b.len() == 0 {
        None
    } else {
        Some(LockStatus(b[0] != 0))
    }
}

impl LockStatus {
    pub fn from_bytes(bytes: &[u8]) -> (r: Option<LockStatus>)
        ensures
            r == lock_from_bytes(bytes@),
    {
        if bytes.len() == 0 {
            None
        } else {
            Some(LockStatus(bytes[0] != 0))
        }
    }

    pub fn to_bytes(&self) -> (r: Vec<u8>)
        ensures
            r@ == lock_bytes(*self),
    {
        let b: u8 = if self.0 { 1 } else { 0 };
        let r = vec![b];
        assert(r@ =~= lock_bytes(*self));
        r
    }
}

impl StoreCodec for LockStatus {
    open spec fn decode_spec(bytes: Seq<u8>) -> Option<Self> {
        lock_from_bytes(bytes)
    }

    open spec fn encode_spec(&self) -> Seq<u8> {
        lock_bytes(*self)
    }

    proof fn lemma_decode_encode(v: Self) {
        lemma_lock_roundtrip(v);
    }

    fn decode(bytes: &[u8]) -> (r: Option<Self>) {
        LockStatus::from_bytes(bytes)
    }

    fn encode(&self) -> (r: Vec<u8>) {
        self.to_bytes()
    }
}

impl<'a> TryFrom<&'a [u8]> for LockStatus {
    type Error = ();

    fn try_from(bytes: &'a [u8]) -> (r: Result<Self, ()>) {
        match LockStatus::from_bytes(bytes) {
            Some(l) => Ok(l),
            None => Err(()),
        }
    }
}

impl<'a> vstd::std_specs::convert::TryFromSpecImpl<&'a [u8]> for LockStatus {
    open spec fn obeys_try_from_spec() -> bool {
        true
    }

    open spec fn try_from_spec(bytes: &'a [u8]) -> Result<Self, ()> {
        match lock_from_bytes(bytes@) {
            Some(l) => Ok(l),
            None => Err(()),
        }
    }
}

impl From<bool> for LockStatus {
    fn from(b: bool) -> (r: LockStatus) {
        LockStatus(b)
    }
}

impl vstd::std_specs::convert::FromSpecImpl<bool> for LockStatus {
    open spec fn obeys_from_spec() -> bool {
        true
    }

    open spec fn from_spec(b: bool) -> LockStatus {
        LockStatus(b)
    }
}

impl From<LockStatus> for bool {
    fn from(l: LockStatus) -> (r: bool) {
        l.0
    }
}

impl vstd::std_specs::convert::FromSpecImpl<LockStatus> for bool {
    open spec fn obeys_from_spec() -> bool {
        true
    }

    open spec fn from_spec(l: LockStatus) -> bool {
        l.0
    }
}

/// Decoding a lock status's byte gives the status back.
pub proof fn lemma_lock_roundtrip(l: LockStatus)
    ensures
        lock_from_bytes(lock_bytes(l)) == Some(l),
{
}

/// One line of the transaction feed.
#[derive(Debug, Clone, Copy, PartialEq, Eq, Structural)]
pub enum CsvItem {
    Deposit(ClientId, TrxId, u64),
    Withdrawal(ClientId, TrxId, u64),
    Dispute(ClientId, TrxId),
    Resolve(ClientId, TrxId),
    ChargerBack(ClientId, TrxId),
}

} // verus!

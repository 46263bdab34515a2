//! The transaction engine: applies a feed of deposits, withdrawals, disputes,
//! resolutions and chargebacks to the balances kept in a store.

use crate::parser::text::{
    all_digit_chars, amount_text_value, index_of, is_digit_char, lemma_amount_text_reads_back,
    lemma_decimal_reads_back, lemma_digit_char_value, lemma_index_of_append, parse_u64_text,
};
use crate::store::{read_as, upsert_input, Key, Store};
use crate::types::{
    lock_bytes, record_bytes, u64_be, Amount, ClientId, CsvItem, LockStatus, TransactionRecord,
    TrxId, TxStatus,
};
use vstd::prelude::*;

verus! {

/// The store's contents as the engine sees them.
pub type Ledger = Map<Key, Seq<u8>>;

/// A key made of a two-letter prefix and a client, as big-endian bytes:
/// the prefix, the client, then four zero bytes.
pub open spec fn account_key(prefix: u16, client_id: ClientId) -> Key {
    (prefix * 0x1_0000_0000_0000 + client_id * 0x1_0000_0000) as u64
}

/// The prefix `"ca"`: available funds.
pub open spec fn available_prefix() -> u16 {
    0x6361
}

/// The prefix `"ch"`: held funds.
pub open spec fn held_prefix() -> u16 {
    0x6368
}

/// The prefix `"ct"`: total funds.
pub open spec fn total_prefix() -> u16 {
    0x6374
}

/// The prefix `"cl"`: the lock flag.
pub open spec fn locked_prefix() -> u16 {
    0x636c
}

/// The key of a recorded deposit: `"tx"`, the client, the transaction, all
/// big-endian.
pub open spec fn trx_key_spec(client_id: ClientId, trx: TrxId) -> Key {
    (0x7478_0000_0000_0000 + client_id * 0x1_0000_0000 + trx) as u64
}

pub fn available_key(client_id: ClientId) -> (k: Key)
    ensures
        k == account_key(available_prefix(), client_id),
{
    0x6361_0000_0000_0000u64 + (client_id as u64) * 0x1_0000_0000u64
}

pub fn held_key(client_id: ClientId) -> (k: Key)
    ensures
        k == account_key(held_prefix(), client_id),
{
    0x6368_0000_0000_0000u64 + (client_id as u64) * 0x1_0000_0000u64
}

pub fn total_key(client_id: ClientId) -> (k: Key)
    ensures
        k == account_key(total_prefix(), client_id),
{
    0x6374_0000_0000_0000u64 + (client_id as u64) * 0x1_0000_0000u64
}

pub fn locked_key(client_id: ClientId) -> (k: Key)
    ensures
        k == account_key(locked_prefix(), client_id),
{
    0x636c_0000_0000_0000u64 + (client_id as u64) * 0x1_0000_0000u64
}

pub fn trx_key(client_id: ClientId, trx: TrxId) -> (k: Key)
    ensures
        k == trx_key_spec(client_id, trx),
{
    0x7478_0000_0000_0000u64 + (client_id as u64) * 0x1_0000_0000u64 + (trx as u64)
}

/// The amount a key holds: its decoded value, or zero where it holds nothing
/// that decodes.
pub open spec fn amount_at(m: Ledger, k: Key) -> u64 {
    upsert_input::<Amount>(m, k, Amount(0)).0
}

pub open spec fn available_of(m: Ledger, c: ClientId) -> u64 {
    amount_at(m, account_key(available_prefix(), c))
}

pub open spec fn held_of(m: Ledger, c: ClientId) -> u64 {
    amount_at(m, account_key(held_prefix(), c))
}

pub open spec fn total_of(m: Ledger, c: ClientId) -> u64 {
    amount_at(m, account_key(total_prefix(), c))
}

/// Whether a client's account is frozen: its lock flag decodes to true.
pub open spec fn locked_of(m: Ledger, c: ClientId) -> bool {
    match read_as::<LockStatus>(m, account_key(locked_prefix(), c)) {
        Some(l) => l.0,
        None => false,
    }
}

/// The deposit recorded for a client and transaction, if it decodes.
pub open spec fn record_of(m: Ledger, c: ClientId, t: TrxId) -> Option<TransactionRecord> {
    read_as::<TransactionRecord>(m, trx_key_spec(c, t))
}

/// The ledger with `v` kept as the amount under `k`.
pub open spec fn set_amount(m: Ledger, k: Key, v: int) -> Ledger {
    m.insert(k, u64_be(v as u64))
}

/// `a - b`, or zero where that is negative.
pub open spec fn saturating_sub(a: u64, b: u64) -> int {
    if a >= b {
        a - b
    } else {
        0
    }
}

/// What applying one item does to the ledger. `None` where a sum leaves the
/// range of `u64` (the arithmetic overflows); otherwise the new ledger, which
/// is the old one where the item is refused.
pub open spec fn step(m: Ledger, item: CsvItem) -> Option<Ledger> {
    match item {
        CsvItem::Deposit(c, t, a) => {
            if locked_of(m, c) || m.contains_key(trx_key_spec(c, t)) {
                Some(m)
            } else if available_of(m, c) + a > u64::MAX || total_of(m, c) + a > u64::MAX {
                None
            } else {
                let rec = TransactionRecord {
                    client_id: c,
                    tx_id: t,
                    amount: a,
                    status: TxStatus::Normal,
                };
                Some(
                    set_amount(
                        set_amount(
                            m.insert(trx_key_spec(c, t), record_bytes(rec)),
                            account_key(available_prefix(), c),
                            available_of(m, c) + a,
                        ),
                        account_key(total_prefix(), c),
                        total_of(m, c) + a,
                    ),
                )
            }
        },
        CsvItem::Withdrawal(c, _t, a) => {
            if locked_of(m, c) || available_of(m, c) < a {
                Some(m)
            } else if total_of(m, c) < a {
                None
            } else {
                Some(
                    set_amount(
                        set_amount(m, account_key(available_prefix(), c), available_of(m, c) - a),
                        account_key(total_prefix(), c),
                        total_of(m, c) - a,
                    ),
                )
            }
        },
        CsvItem::Dispute(c, t) => {
            if locked_of(m, c) {
                Some(m)
            } else {
                match record_of(m, c, t) {
                    None => Some(m),
                    Some(r) => {
                        if r.client_id != c || r.status != TxStatus::Normal {
                            Some(m)
                        } else if held_of(m, c) + r.amount > u64::MAX {
                            None
                        } else {
                            Some(
                                set_amount(
                                    set_amount(
                                        m.insert(
                                            trx_key_spec(c, t),
                                            record_bytes(
                                                TransactionRecord { status: TxStatus::Disputed, ..r },
                                            ),
                                        ),
                                        account_key(available_prefix(), c),
                                        saturating_sub(available_of(m, c), r.amount),
                                    ),
                                    account_key(held_prefix(), c),
                                    held_of(m, c) + r.amount,
                                ),
                            )
                        }
                    },
                }
            }
        },
        CsvItem::Resolve(c, t) => {
            if locked_of(m, c) {
                Some(m)
            } else {
                match record_of(m, c, t) {
                    None => Some(m),
                    Some(r) => {
                        if r.client_id != c || r.status != TxStatus::Disputed {
                            Some(m)
                        } else if available_of(m, c) + r.amount > u64::MAX {
                            None
                        } else {
                            Some(
                                set_amount(
                                    set_amount(
                                        m.insert(
                                            trx_key_spec(c, t),
                                            record_bytes(
                                                TransactionRecord { status: TxStatus::Normal, ..r },
                                            ),
                                        ),
                                        account_key(available_prefix(), c),
                                        available_of(m, c) + r.amount,
                                    ),
                                    account_key(held_prefix(), c),
                                    saturating_sub(held_of(m, c), r.amount),
                                ),
                            )
                        }
                    },
                }
            }
        },
        CsvItem::ChargerBack(c, t) => {
            if locked_of(m, c) {
                Some(m)
            } else {
                match record_of(m, c, t) {
                    None => Some(m),
                    Some(r) => {
                        if r.client_id != c || r.status != TxStatus::Disputed {
                            Some(m)
                        } else {
                            Some(
                                set_amount(
                                    set_amount(
                                        m.insert(
                                            trx_key_spec(c, t),
                                            record_bytes(
                                                TransactionRecord {
                                                    status: TxStatus::ChargedBack,
                                                    ..r
                                                },
                                            ),
                                        ),
                                        account_key(held_prefix(), c),
                                        saturating_sub(held_of(m, c), r.amount),
                                    ),
                                    account_key(total_prefix(), c),
                                    saturating_sub(total_of(m, c), r.amount),
                                ).insert(account_key(locked_prefix(), c), lock_bytes(LockStatus(true))),
                            )
                        }
                    },
                }
            }
        },
    }
}

/// What applying a whole feed does, item after item; `None` where some item
/// overflows.
pub open spec fn run(m: Ledger, items: Seq<CsvItem>) -> Option<Ledger>
    decreases items.len(),
{
    if items.len() == 0 {
        Some(m)
    } else {
        match run(m, items.drop_last()) {
            Some(m2) => step(m2, items.last()),
            None => None,
        }
    }
}

/// Whether adding `b` to `a` stays within `u64`.
pub open spec fn fits_sum(a: Amount, b: u64) -> bool {
    a.0 + b <= u64::MAX
}

/// Whether `a` is at least `b`.
pub open spec fn covers(a: Amount, b: u64) -> bool {
    a.0 >= b
}

pub open spec fn amount_plus(a: Amount, b: u64) -> Amount {
    Amount((a.0 + b) as u64)
}

pub open spec fn amount_minus(a: Amount, b: u64) -> Amount {
    Amount((a.0 - b) as u64)
}

pub open spec fn amount_saturating_minus(a: Amount, b: u64) -> Amount {
    Amount(saturating_sub(a.0, b) as u64)
}

/// Running two feeds one after the other is running them joined: the second
/// starts from the ledger the first leaves, and an overflow in the first
/// stops both.
pub proof fn lemma_run_append(m: Ledger, a: Seq<CsvItem>, b: Seq<CsvItem>)
    ensures
        run(m, a + b) == (match run(m, a) {
            Some(m1) => run(m1, b),
            None => None,
        }),
    decreases b.len(),
{
    if b.len() == 0 {
        assert(a + b =~= a);
    } else {
        lemma_run_append(m, a, b.drop_last());
        assert((a + b).drop_last() =~= a + b.drop_last());
        assert((a + b).last() == b.last());
    }
}

/// A feed of one item is that item's step.
pub proof fn lemma_run_single(m: Ledger, item: CsvItem)
    ensures
        run(m, seq![item]) == step(m, item),
{
    assert(seq![item].drop_last() =~= Seq::<CsvItem>::empty());
    assert(run(m, Seq::<CsvItem>::empty()) == Some(m));
    assert(seq![item].last() == item);
}

/// Where a whole feed runs without overflow, so does each of its prefixes.
pub proof fn lemma_run_prefix_some(m: Ledger, items: Seq<CsvItem>, k: int)
    requires
        0 <= k <= items.len(),
        run(m, items) is Some,
    ensures
        run(m, items.take(k)) is Some,
    decreases items.len() - k,
{
    if k < items.len() {
        lemma_run_prefix_some(m, items, k + 1);
        assert(items.take(k + 1).drop_last() =~= items.take(k));
    } else {
        assert(items.take(k) =~= items);
    }
}

/// Where a prefix of a feed overflows, so does the whole feed.
pub proof fn lemma_run_none_extends(m: Ledger, items: Seq<CsvItem>, k: int)
    requires
        0 <= k <= items.len(),
        run(m, items.take(k)) is None,
    ensures
        run(m, items) is None,
    decreases items.len() - k,
{
    if k < items.len() {
        assert(items.take(k + 1).drop_last() =~= items.take(k));
        lemma_run_none_extends(m, items, k + 1);
    } else {
        assert(items.take(k) =~= items);
    }
}

/// The client that an item is about.
pub open spec fn item_client(item: CsvItem) -> ClientId {
    match item {
        CsvItem::Deposit(c, _, _) => c,
        CsvItem::Withdrawal(c, _, _) => c,
        CsvItem::Dispute(c, _) => c,
        CsvItem::Resolve(c, _) => c,
        CsvItem::ChargerBack(c, _) => c,
    }
}

/// An item about one client leaves every other client's amounts, lock and
/// recorded deposits as they are.
pub proof fn lemma_other_clients_untouched_step(m: Ledger, item: CsvItem, c: ClientId, t: TrxId)
    requires
        item_client(item) != c,
        step(m, item) is Some,
    ensures
        available_of(step(m, item)->0, c) == available_of(m, c),
        held_of(step(m, item)->0, c) == held_of(m, c),
        total_of(step(m, item)->0, c) == total_of(m, c),
        locked_of(step(m, item)->0, c) == locked_of(m, c),
        record_of(step(m, item)->0, c, t) == record_of(m, c, t),
{
}

/// A feed of items about other clients leaves a client's amounts, lock and
/// recorded deposits as they are.
pub proof fn lemma_other_clients_untouched(m: Ledger, items: Seq<CsvItem>, c: ClientId, t: TrxId)
    requires
        forall|i: int| 0 <= i < items.len() ==> item_client(#[trigger] items[i]) != c,
        run(m, items) is Some,
    ensures
        available_of(run(m, items)->0, c) == available_of(m, c),
        held_of(run(m, items)->0, c) == held_of(m, c),
        total_of(run(m, items)->0, c) == total_of(m, c),
        locked_of(run(m, items)->0, c) == locked_of(m, c),
        record_of(run(m, items)->0, c, t) == record_of(m, c, t),
    decreases items.len(),
{
    if items.len() > 0 {
        let prefix = items.drop_last();
        assert forall|i: int| 0 <= i < prefix.len() implies item_client(#[trigger] prefix[i]) != c by {
            assert(prefix[i] == items[i]);
        }
        lemma_other_clients_untouched(m, prefix, c, t);
        assert(item_client(items.last()) != c) by {
            assert(items.last() == items[items.len() - 1]);
        }
        lemma_other_clients_untouched_step(run(m, prefix)->0, items.last(), c, t);
    }
}

/// A locked account stays locked, and its available, held and total amounts
/// and its recorded deposits (their status among them) stay as they are,
/// whatever one item does.
#[verifier::rlimit(40)]
pub proof fn lemma_locked_account_frozen_step(m: Ledger, item: CsvItem, c: ClientId, t: TrxId)
    requires
        locked_of(m, c),
        step(m, item) is Some,
    ensures
        locked_of(step(m, item)->0, c),
        available_of(step(m, item)->0, c) == available_of(m, c),
        held_of(step(m, item)->0, c) == held_of(m, c),
        total_of(step(m, item)->0, c) == total_of(m, c),
        record_of(step(m, item)->0, c, t) == record_of(m, c, t),
{
}

/// A locked account stays locked, and its available, held and total amounts
/// and its recorded deposits (their status among them) stay as they are,
/// whatever a feed does.
pub proof fn lemma_locked_account_frozen(m: Ledger, items: Seq<CsvItem>, c: ClientId, t: TrxId)
    requires
        locked_of(m, c),
        run(m, items) is Some,
    ensures
        locked_of(run(m, items)->0, c),
        available_of(run(m, items)->0, c) == available_of(m, c),
        held_of(run(m, items)->0, c) == held_of(m, c),
        total_of(run(m, items)->0, c) == total_of(m, c),
        record_of(run(m, items)->0, c, t) == record_of(m, c, t),
    decreases items.len(),
{
    if items.len() > 0 {
        lemma_locked_account_frozen(m, items.drop_last(), c, t);
        lemma_locked_account_frozen_step(run(m, items.drop_last())->0, items.last(), c, t);
    }
}

/// A deposit is recorded once: a second deposit under the same client and
/// transaction leaves the ledger as the first one left it.
pub proof fn lemma_duplicate_deposit_ignored(m: Ledger, c: ClientId, t: TrxId, a: u64, b: u64)
    requires
        step(m, CsvItem::Deposit(c, t, a)) is Some,
    ensures
        step(step(m, CsvItem::Deposit(c, t, a))->0, CsvItem::Deposit(c, t, b)) == step(
            m,
            CsvItem::Deposit(c, t, a),
        ),
{
}

/// A deposit to an unlocked account, under a transaction not yet recorded,
/// adds its amount to the available and total funds, leaves the held funds,
/// and records the deposit as undisputed.
pub proof fn lemma_deposit_credits(m: Ledger, c: ClientId, t: TrxId, a: u64)
    requires
        !locked_of(m, c),
        !m.contains_key(trx_key_spec(c, t)),
        step(m, CsvItem::Deposit(c, t, a)) is Some,
    ensures
        ({
            let m2 = step(m, CsvItem::Deposit(c, t, a))->0;
            &&& available_of(m2, c) == available_of(m, c) + a
            &&& total_of(m2, c) == total_of(m, c) + a
            &&& held_of(m2, c) == held_of(m, c)
            &&& record_of(m2, c, t) == Some(
                TransactionRecord { client_id: c, tx_id: t, amount: a, status: TxStatus::Normal },
            )
        }),
{
    let m2 = step(m, CsvItem::Deposit(c, t, a))->0;
    crate::types::lemma_amount_roundtrip(Amount((available_of(m, c) + a) as u64));
    crate::types::lemma_amount_roundtrip(Amount((total_of(m, c) + a) as u64));
    crate::types::lemma_record_roundtrip(
        TransactionRecord { client_id: c, tx_id: t, amount: a, status: TxStatus::Normal },
    );
}

/// Resolving a dispute undoes it: where the disputed amount was available,
/// a dispute followed by its resolution gives back the available, held and
/// total amounts and the undisputed record.
pub proof fn lemma_dispute_then_resolve(m: Ledger, c: ClientId, t: TrxId)
    requires
        !locked_of(m, c),
        record_of(m, c, t) matches Some(r) && r.client_id == c && r.status == TxStatus::Normal
            && r.amount <= available_of(m, c),
        step(m, CsvItem::Dispute(c, t)) is Some,
    ensures
        step(step(m, CsvItem::Dispute(c, t))->0, CsvItem::Resolve(c, t)) is Some,
        ({
            let m3 = step(step(m, CsvItem::Dispute(c, t))->0, CsvItem::Resolve(c, t))->0;
            &&& available_of(m3, c) == available_of(m, c)
            &&& held_of(m3, c) == held_of(m, c)
            &&& total_of(m3, c) == total_of(m, c)
            &&& record_of(m3, c, t) == record_of(m, c, t)
            &&& locked_of(m3, c) == locked_of(m, c)
        }),
{
    let r = record_of(m, c, t)->0;
    let m2 = step(m, CsvItem::Dispute(c, t))->0;
    let rd = TransactionRecord { status: TxStatus::Disputed, ..r };
    let rn = TransactionRecord { status: TxStatus::Normal, ..r };
    crate::types::lemma_record_roundtrip(rd);
    crate::types::lemma_record_roundtrip(rn);
    crate::types::lemma_amount_roundtrip(Amount((available_of(m, c) - r.amount) as u64));
    crate::types::lemma_amount_roundtrip(Amount((held_of(m, c) + r.amount) as u64));
    assert(record_of(m2, c, t) == Some(rd));
    assert(available_of(m2, c) == available_of(m, c) - r.amount);
    assert(held_of(m2, c) == held_of(m, c) + r.amount);
    let m3 = step(m2, CsvItem::Resolve(c, t))->0;
    crate::types::lemma_amount_roundtrip(Amount(available_of(m, c)));
    crate::types::lemma_amount_roundtrip(Amount(held_of(m, c)));
    assert(rn == r);
}

/// A withdrawal draws on available funds only. One larger than the client's
/// available funds, or on a locked account, leaves the ledger as it is. One
/// that is applied lowers the available and total funds by exactly its
/// amount, and leaves the held funds, the lock and the deposits as they were.
pub proof fn lemma_withdrawal_draws_on_available(m: Ledger, c: ClientId, t: TrxId, a: u64)
    ensures
        available_of(m, c) < a ==> step(m, CsvItem::Withdrawal(c, t, a)) == Some(m),
        locked_of(m, c) ==> step(m, CsvItem::Withdrawal(c, t, a)) == Some(m),
        !locked_of(m, c) && a <= available_of(m, c) && a <= total_of(m, c) ==> {
            &&& step(m, CsvItem::Withdrawal(c, t, a)) is Some
            &&& available_of(step(m, CsvItem::Withdrawal(c, t, a))->0, c) == available_of(m, c) - a
            &&& total_of(step(m, CsvItem::Withdrawal(c, t, a))->0, c) == total_of(m, c) - a
            &&& held_of(step(m, CsvItem::Withdrawal(c, t, a))->0, c) == held_of(m, c)
            &&& locked_of(step(m, CsvItem::Withdrawal(c, t, a))->0, c) == locked_of(m, c)
            &&& forall|u: TrxId|
                #[trigger] record_of(step(m, CsvItem::Withdrawal(c, t, a))->0, c, u) == record_of(
                    m,
                    c,
                    u,
                )
        },
{
    if !locked_of(m, c) && a <= available_of(m, c) && a <= total_of(m, c) {
        crate::types::lemma_amount_roundtrip(Amount((available_of(m, c) - a) as u64));
        crate::types::lemma_amount_roundtrip(Amount((total_of(m, c) - a) as u64));
    }
}

/// A dispute of an undisputed deposit of the client, on an unlocked account,
/// moves the deposit's amount from available funds (as far as they go) to
/// held funds, keeps the total, and marks the deposit disputed. A dispute of
/// anything else (no such deposit, one already disputed or charged back, or a
/// locked account) leaves the ledger as it is.
pub proof fn lemma_dispute_holds_funds(m: Ledger, c: ClientId, t: TrxId)
    ensures
        locked_of(m, c) || record_of(m, c, t) is None || record_of(m, c, t)->0.client_id != c
            || record_of(m, c, t)->0.status != TxStatus::Normal ==> step(m, CsvItem::Dispute(c, t))
            == Some(m),
        !locked_of(m, c) && record_of(m, c, t) is Some && record_of(m, c, t)->0.client_id == c
            && record_of(m, c, t)->0.status == TxStatus::Normal && held_of(m, c) + record_of(
            m,
            c,
            t,
        )->0.amount <= u64::MAX ==> {
            let r = record_of(m, c, t)->0;
            let m2 = step(m, CsvItem::Dispute(c, t))->0;
            &&& step(m, CsvItem::Dispute(c, t)) is Some
            &&& available_of(m2, c) == (if available_of(m, c) >= r.amount {
                available_of(m, c) - r.amount
            } else {
                0
            })
            &&& held_of(m2, c) == held_of(m, c) + r.amount
            &&& total_of(m2, c) == total_of(m, c)
            &&& locked_of(m2, c) == locked_of(m, c)
            &&& record_of(m2, c, t) == Some(TransactionRecord { status: TxStatus::Disputed, ..r })
        },
{
    if !locked_of(m, c) && record_of(m, c, t) is Some && record_of(m, c, t)->0.client_id == c
        && record_of(m, c, t)->0.status == TxStatus::Normal && held_of(m, c) + record_of(
        m,
        c,
        t,
    )->0.amount <= u64::MAX {
        let r = record_of(m, c, t)->0;
        crate::types::lemma_record_roundtrip(TransactionRecord { status: TxStatus::Disputed, ..r });
        crate::types::lemma_amount_roundtrip(
            Amount(saturating_sub(available_of(m, c), r.amount) as u64),
        );
        crate::types::lemma_amount_roundtrip(Amount((held_of(m, c) + r.amount) as u64));
    }
}

/// A resolution of a disputed deposit of the client, on an unlocked account,
/// moves the deposit's amount from held funds (as far as they go) back to
/// available funds, keeps the total, and marks the deposit undisputed. A
/// resolution of anything else leaves the ledger as it is.
pub proof fn lemma_resolve_releases_funds(m: Ledger, c: ClientId, t: TrxId)
    ensures
        locked_of(m, c) || record_of(m, c, t) is None || record_of(m, c, t)->0.client_id != c
            || record_of(m, c, t)->0.status != TxStatus::Disputed ==> step(m, CsvItem::Resolve(c, t))
            == Some(m),
        !locked_of(m, c) && record_of(m, c, t) is Some && record_of(m, c, t)->0.client_id == c
            && record_of(m, c, t)->0.status == TxStatus::Disputed && available_of(m, c)
            + record_of(m, c, t)->0.amount <= u64::MAX ==> {
            let r = record_of(m, c, t)->0;
            let m2 = step(m, CsvItem::Resolve(c, t))->0;
            &&& step(m, CsvItem::Resolve(c, t)) is Some
            &&& available_of(m2, c) == available_of(m, c) + r.amount
            &&& held_of(m2, c) == (if held_of(m, c) >= r.amount {
                held_of(m, c) - r.amount
            } else {
                0
            })
            &&& total_of(m2, c) == total_of(m, c)
            &&& locked_of(m2, c) == locked_of(m, c)
            &&& record_of(m2, c, t) == Some(TransactionRecord { status: TxStatus::Normal, ..r })
        },
{
    if !locked_of(m, c) && record_of(m, c, t) is Some && record_of(m, c, t)->0.client_id == c
        && record_of(m, c, t)->0.status == TxStatus::Disputed && available_of(m, c) + record_of(
        m,
        c,
        t,
    )->0.amount <= u64::MAX {
        let r = record_of(m, c, t)->0;
        crate::types::lemma_record_roundtrip(TransactionRecord { status: TxStatus::Normal, ..r });
        crate::types::lemma_amount_roundtrip(Amount((available_of(m, c) + r.amount) as u64));
        crate::types::lemma_amount_roundtrip(Amount(saturating_sub(held_of(m, c), r.amount) as u64));
    }
}

/// A chargeback of a disputed deposit of the client, on an unlocked account,
/// takes the deposit's amount out of held and total funds (as far as they
/// go), keeps the available funds, marks the deposit charged back and locks
/// the account. A chargeback of anything else leaves the ledger as it is.
pub proof fn lemma_chargeback_removes_funds(m: Ledger, c: ClientId, t: TrxId)
    ensures
        locked_of(m, c) || record_of(m, c, t) is None || record_of(m, c, t)->0.client_id != c
            || record_of(m, c, t)->0.status != TxStatus::Disputed ==> step(
            m,
            CsvItem::ChargerBack(c, t),
        ) == Some(m),
        !locked_of(m, c) && record_of(m, c, t) is Some && record_of(m, c, t)->0.client_id == c
            && record_of(m, c, t)->0.status == TxStatus::Disputed ==> {
            let r = record_of(m, c, t)->0;
            let m2 = step(m, CsvItem::ChargerBack(c, t))->0;
            &&& step(m, CsvItem::ChargerBack(c, t)) is Some
            &&& available_of(m2, c) == available_of(m, c)
            &&& held_of(m2, c) == (if held_of(m, c) >= r.amount {
                held_of(m, c) - r.amount
            } else {
                0
            })
            &&& total_of(m2, c) == (if total_of(m, c) >= r.amount {
                total_of(m, c) - r.amount
            } else {
                0
            })
            &&& locked_of(m2, c)
            &&& record_of(m2, c, t) == Some(TransactionRecord { status: TxStatus::ChargedBack, ..r })
        },
{
    if !locked_of(m, c) && record_of(m, c, t) is Some && record_of(m, c, t)->0.client_id == c
        && record_of(m, c, t)->0.status == TxStatus::Disputed {
        let r = record_of(m, c, t)->0;
        crate::types::lemma_record_roundtrip(TransactionRecord { status: TxStatus::ChargedBack, ..r });
        crate::types::lemma_amount_roundtrip(Amount(saturating_sub(held_of(m, c), r.amount) as u64));
        crate::types::lemma_amount_roundtrip(Amount(saturating_sub(total_of(m, c), r.amount) as u64));
        crate::types::lemma_lock_roundtrip(LockStatus(true));
    }
}

/// A deposit on a locked account, or under a transaction already recorded for
/// the client, leaves the ledger as it is.
pub proof fn lemma_deposit_refused(m: Ledger, c: ClientId, t: TrxId, a: u64)
    requires
        locked_of(m, c) || m.contains_key(trx_key_spec(c, t)),
    ensures
        step(m, CsvItem::Deposit(c, t, a)) == Some(m),
{
}

/// A chargeback of a disputed deposit locks the account.
pub proof fn lemma_chargeback_locks(m: Ledger, c: ClientId, t: TrxId)
    requires
        !locked_of(m, c),
        record_of(m, c, t) matches Some(r) && r.client_id == c && r.status == TxStatus::Disputed,
    ensures
        step(m, CsvItem::ChargerBack(c, t)) is Some,
        locked_of(step(m, CsvItem::ChargerBack(c, t))->0, c),
{
}

/// What a client's recorded deposit keeps on hold: its amount while it is
/// disputed, nothing otherwise (nor where no such deposit is recorded).
pub open spec fn disputed_amount(m: Ledger, c: ClientId, t: TrxId) -> nat {
    match record_of(m, c, t) {
        Some(r) => if r.status == TxStatus::Disputed {
            r.amount as nat
        } else {
            0
        },
        None => 0,
    }
}

/// The sum of what a client's deposits under transactions below `n` keep on
/// hold.
pub open spec fn disputed_below(m: Ledger, c: ClientId, n: nat) -> nat
    decreases n,
{
    if n == 0 {
        0
    } else {
        disputed_below(m, c, (n - 1) as nat) + disputed_amount(m, c, (n - 1) as u32)
    }
}

/// The sum of the amounts of a client's disputed deposits, over every
/// transaction id.
pub open spec fn disputed_total(m: Ledger, c: ClientId) -> nat {
    disputed_below(m, c, 0x1_0000_0000)
}

/// Changing what one transaction keeps on hold changes the sum by as much.
proof fn lemma_disputed_below_update(m: Ledger, m2: Ledger, c: ClientId, t0: TrxId, n: nat)
    requires
        n <= 0x1_0000_0000,
        forall|t: TrxId| t != t0 ==> disputed_amount(m2, c, t) == disputed_amount(m, c, t),
    ensures
        disputed_below(m2, c, n) + (if t0 < n {
            disputed_amount(m, c, t0)
        } else {
            0
        }) == disputed_below(m, c, n) + (if t0 < n {
            disputed_amount(m2, c, t0)
        } else {
            0
        }),
    decreases n,
{
    if n > 0 {
        lemma_disputed_below_update(m, m2, c, t0, (n - 1) as nat);
        let t = (n - 1) as u32;
        assert(t == n - 1);
        if t != t0 {
            assert(disputed_amount(m2, c, t) == disputed_amount(m, c, t));
        }
    }
}

/// The sum covers what each of its transactions keeps on hold.
proof fn lemma_disputed_below_covers(m: Ledger, c: ClientId, t0: TrxId, n: nat)
    requires
        n <= 0x1_0000_0000,
        t0 < n,
    ensures
        disputed_amount(m, c, t0) <= disputed_below(m, c, n),
    decreases n,
{
    let t = (n - 1) as u32;
    assert(t == n - 1);
    if t0 < n - 1 {
        lemma_disputed_below_covers(m, c, t0, (n - 1) as nat);
    }
}

/// Where nothing is kept on hold, the sum is zero.
proof fn lemma_disputed_below_zero(m: Ledger, c: ClientId, n: nat)
    requires
        forall|t: TrxId| disputed_amount(m, c, t) == 0,
    ensures
        disputed_below(m, c, n) == 0,
    decreases n,
{
    if n > 0 {
        lemma_disputed_below_zero(m, c, (n - 1) as nat);
        assert(disputed_amount(m, c, (n - 1) as u32) == 0);
    }
}

/// Where a step leaves every deposit of a client as it was, it leaves the sum
/// of its disputed amounts as it was.
proof fn lemma_disputed_total_same(m: Ledger, m2: Ledger, c: ClientId)
    requires
        forall|t: TrxId| disputed_amount(m2, c, t) == disputed_amount(m, c, t),
    ensures
        disputed_total(m2, c) == disputed_total(m, c),
{
    lemma_disputed_below_update(m, m2, c, 0, 0x1_0000_0000);
}

/// One item keeps a client's held funds equal to the sum of the amounts of
/// its disputed deposits.
#[verifier::rlimit(40)]
pub proof fn lemma_held_tracks_disputes_step(m: Ledger, item: CsvItem, c: ClientId)
    requires
        held_of(m, c) == disputed_total(m, c),
        step(m, item) is Some,
    ensures
        held_of(step(m, item)->0, c) == disputed_total(step(m, item)->0, c),
{
    let m2 = step(m, item)->0;
    if item_client(item) != c {
        assert forall|t: TrxId| disputed_amount(m2, c, t) == disputed_amount(m, c, t) by {
            lemma_other_clients_untouched_step(m, item, c, t);
        }
        lemma_other_clients_untouched_step(m, item, c, 0);
        lemma_disputed_total_same(m, m2, c);
    } else if locked_of(m, c) {
        assert forall|t: TrxId| disputed_amount(m2, c, t) == disputed_amount(m, c, t) by {
            lemma_locked_account_frozen_step(m, item, c, t);
        }
        lemma_locked_account_frozen_step(m, item, c, 0);
        lemma_disputed_total_same(m, m2, c);
    } else {
        match item {
            CsvItem::Deposit(_, t0, a) => {
                if !m.contains_key(trx_key_spec(c, t0)) {
                    let rec = TransactionRecord {
                        client_id: c,
                        tx_id: t0,
                        amount: a,
                        status: TxStatus::Normal,
                    };
                    crate::types::lemma_record_roundtrip(rec);
                    assert(record_of(m2, c, t0) == Some(rec));
                }
                assert forall|t: TrxId| disputed_amount(m2, c, t) == disputed_amount(m, c, t) by {
                    if t != t0 {
                        assert(record_of(m2, c, t) == record_of(m, c, t));
                    }
                }
                lemma_disputed_total_same(m, m2, c);
            },
            CsvItem::Withdrawal(_, _, _) => {
                assert forall|t: TrxId| disputed_amount(m2, c, t) == disputed_amount(m, c, t) by {
                    assert(record_of(m2, c, t) == record_of(m, c, t));
                }
                lemma_disputed_total_same(m, m2, c);
            },
            CsvItem::Dispute(_, t0) => {
                let ro = record_of(m, c, t0);
                if ro is Some && ro->0.client_id == c && ro->0.status == TxStatus::Normal {
                    let r = ro->0;
                    let rd = TransactionRecord { status: TxStatus::Disputed, ..r };
                    crate::types::lemma_record_roundtrip(rd);
                    crate::types::lemma_amount_roundtrip(Amount((held_of(m, c) + r.amount) as u64));
                    assert(record_of(m2, c, t0) == Some(rd));
                    assert(held_of(m2, c) == held_of(m, c) + r.amount);
                    assert forall|t: TrxId| t != t0 implies disputed_amount(m2, c, t)
                        == disputed_amount(m, c, t) by {
                        assert(record_of(m2, c, t) == record_of(m, c, t));
                    }
                    lemma_disputed_below_update(m, m2, c, t0, 0x1_0000_0000);
                }
            },
            CsvItem::Resolve(_, t0) => {
                let ro = record_of(m, c, t0);
                if ro is Some && ro->0.client_id == c && ro->0.status == TxStatus::Disputed {
                    let r = ro->0;
                    let rn = TransactionRecord { status: TxStatus::Normal, ..r };
                    lemma_disputed_below_covers(m, c, t0, 0x1_0000_0000);
                    crate::types::lemma_record_roundtrip(rn);
                    crate::types::lemma_amount_roundtrip(Amount((held_of(m, c) - r.amount) as u64));
                    assert(record_of(m2, c, t0) == Some(rn));
                    assert(held_of(m2, c) == held_of(m, c) - r.amount);
                    assert forall|t: TrxId| t != t0 implies disputed_amount(m2, c, t)
                        == disputed_amount(m, c, t) by {
                        assert(record_of(m2, c, t) == record_of(m, c, t));
                    }
                    lemma_disputed_below_update(m, m2, c, t0, 0x1_0000_0000);
                }
            },
            CsvItem::ChargerBack(_, t0) => {
                let ro = record_of(m, c, t0);
                if ro is Some && ro->0.client_id == c && ro->0.status == TxStatus::Disputed {
                    let r = ro->0;
                    let rc = TransactionRecord { status: TxStatus::ChargedBack, ..r };
                    lemma_disputed_below_covers(m, c, t0, 0x1_0000_0000);
                    crate::types::lemma_record_roundtrip(rc);
                    crate::types::lemma_amount_roundtrip(Amount((held_of(m, c) - r.amount) as u64));
                    assert(record_of(m2, c, t0) == Some(rc));
                    assert(held_of(m2, c) == held_of(m, c) - r.amount);
                    assert forall|t: TrxId| t != t0 implies disputed_amount(m2, c, t)
                        == disputed_amount(m, c, t) by {
                        assert(record_of(m2, c, t) == record_of(m, c, t));
                    }
                    lemma_disputed_below_update(m, m2, c, t0, 0x1_0000_0000);
                }
            },
        }
    }
}

/// Every feed keeps a client's held funds equal to the sum of the amounts of
/// its disputed deposits, wherever they were equal before it.
pub proof fn lemma_held_tracks_disputes(m: Ledger, items: Seq<CsvItem>, c: ClientId)
    requires
        held_of(m, c) == disputed_total(m, c),
        run(m, items) is Some,
    ensures
        held_of(run(m, items)->0, c) == disputed_total(run(m, items)->0, c),
    decreases items.len(),
{
    if items.len() > 0 {
        lemma_held_tracks_disputes(m, items.drop_last(), c);
        lemma_held_tracks_disputes_step(run(m, items.drop_last())->0, items.last(), c);
    }
}

/// Held funds are disputed deposits: from an empty ledger, after any feed
/// that runs without overflow, each client's held funds are the sum of the
/// amounts of its deposits that stand disputed (zero where none does).
pub proof fn lemma_held_is_disputed_total(items: Seq<CsvItem>, c: ClientId)
    requires
        run(Map::empty(), items) is Some,
    ensures
        held_of(run(Map::empty(), items)->0, c) == disputed_total(run(Map::empty(), items)->0, c),
{
    let m = Map::<Key, Seq<u8>>::empty();
    assert forall|t: TrxId| disputed_amount(m, c, t) == 0 by {}
    lemma_disputed_below_zero(m, c, 0x1_0000_0000);
    lemma_held_tracks_disputes(m, items, c);
}

/// The character of a decimal digit.
pub open spec fn digit_char(d: int) -> char {
    (48 + d) as char
}

/// The decimal digits of `n`, most significant first, without leading zeros.
pub open spec fn decimal(n: nat) -> Seq<char>
    decreases n,
{
    if n < 10 {
        seq![digit_char(n as int)]
    } else {
        decimal(n / 10).push(digit_char((n % 10) as int))
    }
}

/// An amount in ten-thousandths written as units, a point and exactly four
/// decimals: `12345` is `1.2345`.
pub open spec fn amount_text(v: u64) -> Seq<char> {
    let f = (v % 10000) as int;
    decimal((v / 10000) as nat) + seq![
        '.',
        digit_char(f / 1000),
        digit_char((f / 100) % 10),
        digit_char((f / 10) % 10),
        digit_char(f % 10),
    ]
}

pub open spec fn bool_text(b: bool) -> Seq<char> {
    if b {
        seq!['t', 'r', 'u', 'e']
    } else {
        seq!['f', 'a', 'l', 's', 'e']
    }
}

/// The report line of a client: id, available, held, total, locked.
pub open spec fn account_line(m: Ledger, c: ClientId) -> Seq<char> {
    decimal(c as nat) + seq![','] + amount_text(available_of(m, c)) + seq![','] + amount_text(
        held_of(m, c),
    ) + seq![','] + amount_text(total_of(m, c)) + seq![','] + bool_text(locked_of(m, c))
}

/// The `n`-th comma-separated field of a text line, counting from zero
/// (empty where the line has fewer fields).
pub open spec fn text_field(s: Seq<char>, n: nat) -> Seq<char>
    decreases n,
{
    let p = index_of(s, ',');
    if n == 0 {
        s.take(p as int)
    } else if p < s.len() {
        text_field(s.skip(p + 1int), (n - 1) as nat)
    } else {
        Seq::empty()
    }
}

/// Whether a text holds no comma.
pub open spec fn no_comma(s: Seq<char>) -> bool {
    forall|i: int| 0 <= i < s.len() ==> s[i] != ','
}

/// A field without commas, then a comma: it is the first field, and the
/// fields after it are those of the rest.
proof fn lemma_text_field_cons(x: Seq<char>, rest: Seq<char>, n: nat)
    requires
        no_comma(x),
    ensures
        text_field(x + seq![','] + rest, 0) == x,
        text_field(x + seq![','] + rest, n + 1) == text_field(rest, n),
{
    let s = x + seq![','] + rest;
    lemma_index_of_append(x, seq![','] + rest, ',');
    assert(x + (seq![','] + rest) =~= s);
    assert(index_of(seq![','] + rest, ',') == 0);
    assert(s.take(x.len() as int) =~= x);
    assert(s.skip(x.len() + 1int) =~= rest);
}

/// A text without commas is its own first field.
proof fn lemma_text_field_last(x: Seq<char>)
    requires
        no_comma(x),
    ensures
        text_field(x, 0) == x,
{
    lemma_index_of_append(x, Seq::empty(), ',');
    assert(x + Seq::<char>::empty() =~= x);
    assert(x.take(x.len() as int) =~= x);
}

/// Decimal digits and the text of an amount hold no comma.
proof fn lemma_amount_text_no_comma(v: u64)
    ensures
        no_comma(decimal((v / 10000) as nat)),
        no_comma(amount_text(v)),
{
    let f = (v % 10000) as int;
    let d = decimal((v / 10000) as nat);
    lemma_decimal_reads_back((v / 10000) as nat);
    lemma_digit_char_value(f / 1000);
    lemma_digit_char_value((f / 100) % 10);
    lemma_digit_char_value((f / 10) % 10);
    lemma_digit_char_value(f % 10);
    assert forall|i: int| 0 <= i < d.len() implies d[i] != ',' by {
        assert(is_digit_char(d[i]));
    }
    let t = amount_text(v);
    assert forall|i: int| 0 <= i < t.len() implies t[i] != ',' by {
        if i < d.len() {
            assert(t[i] == d[i]);
        }
    }
}

/// Five comma-free fields joined by commas are the line's five fields.
proof fn lemma_five_fields(
    x0: Seq<char>,
    x1: Seq<char>,
    x2: Seq<char>,
    x3: Seq<char>,
    x4: Seq<char>,
)
    requires
        no_comma(x0),
        no_comma(x1),
        no_comma(x2),
        no_comma(x3),
        no_comma(x4),
    ensures
        ({
            let line = x0 + seq![','] + x1 + seq![','] + x2 + seq![','] + x3 + seq![','] + x4;
            &&& text_field(line, 0) == x0
            &&& text_field(line, 1) == x1
            &&& text_field(line, 2) == x2
            &&& text_field(line, 3) == x3
            &&& text_field(line, 4) == x4
        }),
{
    let r3 = x3 + seq![','] + x4;
    let r2 = x2 + seq![','] + r3;
    let r1 = x1 + seq![','] + r2;
    let line = x0 + seq![','] + r1;
    assert(x0 + seq![','] + x1 + seq![','] + x2 + seq![','] + x3 + seq![','] + x4 =~= line);
    lemma_text_field_cons(x0, r1, 0);
    lemma_text_field_cons(x0, r1, 1);
    lemma_text_field_cons(x0, r1, 2);
    lemma_text_field_cons(x0, r1, 3);
    lemma_text_field_cons(x1, r2, 0);
    lemma_text_field_cons(x1, r2, 1);
    lemma_text_field_cons(x1, r2, 2);
    lemma_text_field_cons(x2, r3, 0);
    lemma_text_field_cons(x2, r3, 1);
    lemma_text_field_cons(x3, x4, 0);
    lemma_text_field_last(x4);
}

/// Each report line reads back as the client's balances: its first field is
/// the decimal text of the client's full id, the next three read as the
/// client's available, held and total funds, and the last is `true` exactly
/// where the account is locked.
pub proof fn lemma_account_line_reads_back(m: Ledger, c: ClientId)
    ensures
        parse_u64_text(text_field(account_line(m, c), 0)) == Some(c as u64),
        amount_text_value(text_field(account_line(m, c), 1)) == Some(available_of(m, c)),
        amount_text_value(text_field(account_line(m, c), 2)) == Some(held_of(m, c)),
        amount_text_value(text_field(account_line(m, c), 3)) == Some(total_of(m, c)),
        text_field(account_line(m, c), 4) == (if locked_of(m, c) {
            seq!['t', 'r', 'u', 'e']
        } else {
            seq!['f', 'a', 'l', 's', 'e']
        }),
{
    let dc = decimal(c as nat);
    lemma_decimal_reads_back(c as nat);
    assert forall|i: int| 0 <= i < dc.len() implies dc[i] != ',' by {
        assert(is_digit_char(dc[i]));
    }
    lemma_amount_text_no_comma(available_of(m, c));
    lemma_amount_text_no_comma(held_of(m, c));
    lemma_amount_text_no_comma(total_of(m, c));
    assert(no_comma(bool_text(locked_of(m, c))));
    lemma_five_fields(
        dc,
        amount_text(available_of(m, c)),
        amount_text(held_of(m, c)),
        amount_text(total_of(m, c)),
        bool_text(locked_of(m, c)),
    );
    lemma_amount_text_reads_back(available_of(m, c));
    lemma_amount_text_reads_back(held_of(m, c));
    lemma_amount_text_reads_back(total_of(m, c));
    assert(dc[0] != '+') by {
        assert(is_digit_char(dc[0]));
    }
}

/// Whether a key's two-byte prefix is one of the four account prefixes.
pub open spec fn is_account_prefix(p: int) -> bool {
    p == available_prefix() as int || p == held_prefix() as int || p == total_prefix() as int || p
        == locked_prefix() as int
}

/// The client that a key names: its third and fourth bytes.
pub open spec fn key_client(k: Key) -> int {
    (k as int / 0x1_0000_0000) % 0x1_0000
}

/// The two-byte prefix of a key.
pub open spec fn key_prefix(k: Key) -> int {
    k as int / 0x1_0000_0000_0000
}

/// Whether the ledger holds some account key (available, held, total or
/// lock) of client `c`.
pub open spec fn has_account(m: Ledger, c: int) -> bool {
    exists|k: Key| #[trigger] m.contains_key(k) && is_account_prefix(key_prefix(k)) && key_client(k) == c
}

/// An account key gives back its prefix and its client.
pub proof fn lemma_account_key_parts(prefix: u16, c: ClientId)
    ensures
        key_prefix(account_key(prefix, c)) == prefix,
        key_client(account_key(prefix, c)) == c,
{
}

/// A client whose deposit is credited has an account key, so the report
/// lists it.
pub proof fn lemma_credited_client_listed(m: Ledger, c: ClientId, t: TrxId, a: u64)
    requires
        !locked_of(m, c),
        !m.contains_key(trx_key_spec(c, t)),
        step(m, CsvItem::Deposit(c, t, a)) is Some,
    ensures
        has_account(step(m, CsvItem::Deposit(c, t, a))->0, c as int),
{
    let m2 = step(m, CsvItem::Deposit(c, t, a))->0;
    let k = account_key(available_prefix(), c);
    lemma_account_key_parts(available_prefix(), c);
    assert(m2.contains_key(k));
}

/// The report lines of the clients below `n` that have an account key, in
/// increasing client order.
pub open spec fn account_lines(m: Ledger, n: nat) -> Seq<Seq<char>>
    decreases n,
{
    if n == 0 {
        Seq::empty()
    } else if has_account(m, n - 1) {
        account_lines(m, (n - 1) as nat).push(account_line(m, (n - 1) as u16))
    } else {
        account_lines(m, (n - 1) as nat)
    }
}

/// Ledgers that list the same clients, with the same lines, give the same
/// report lines.
proof fn lemma_account_lines_same(m: Ledger, m2: Ledger, n: nat)
    requires
        n <= 0x1_0000,
        forall|c: int| 0 <= c < n ==> #[trigger] has_account(m2, c) == has_account(m, c),
        forall|c: ClientId| c < n ==> #[trigger] account_line(m2, c) == account_line(m, c),
    ensures
        account_lines(m2, n) == account_lines(m, n),
    decreases n,
{
    if n > 0 {
        lemma_account_lines_same(m, m2, (n - 1) as nat);
        assert(has_account(m2, n - 1) == has_account(m, n - 1));
        assert(account_line(m2, (n - 1) as u16) == account_line(m, (n - 1) as u16));
    }
}

/// Resolving a dispute undoes it in the whole report: where the client
/// already has an account key and the disputed amount was available, a
/// dispute followed by its resolution leaves the report as it was (and the
/// deposit undisputed, as `lemma_dispute_then_resolve` states).
pub proof fn lemma_dispute_then_resolve_report(m: Ledger, c: ClientId, t: TrxId)
    requires
        !locked_of(m, c),
        record_of(m, c, t) matches Some(r) && r.client_id == c && r.status == TxStatus::Normal
            && r.amount <= available_of(m, c),
        step(m, CsvItem::Dispute(c, t)) is Some,
        has_account(m, c as int),
    ensures
        step(step(m, CsvItem::Dispute(c, t))->0, CsvItem::Resolve(c, t)) is Some,
        report(step(step(m, CsvItem::Dispute(c, t))->0, CsvItem::Resolve(c, t))->0) == report(m),
{
    lemma_dispute_then_resolve(m, c, t);
    let m2 = step(m, CsvItem::Dispute(c, t))->0;
    let m3 = step(m2, CsvItem::Resolve(c, t))->0;
    let ka = account_key(available_prefix(), c);
    let kh = account_key(held_prefix(), c);
    lemma_account_key_parts(available_prefix(), c);
    lemma_account_key_parts(held_prefix(), c);
    assert(m3.dom() =~= m.dom().insert(ka).insert(kh));
    assert forall|c2: ClientId| #[trigger] account_line(m3, c2) == account_line(m, c2) by {
        if c2 != c {
            lemma_other_clients_untouched_step(m, CsvItem::Dispute(c, t), c2, t);
            lemma_other_clients_untouched_step(m2, CsvItem::Resolve(c, t), c2, t);
        }
    }
    assert forall|c2: int| 0 <= c2 < 0x1_0000 implies #[trigger] has_account(m3, c2) == has_account(
        m,
        c2,
    ) by {
        if has_account(m, c2) {
            let k = choose|k: Key|
                #[trigger] m.contains_key(k) && is_account_prefix(key_prefix(k)) && key_client(k)
                    == c2;
            assert(m3.contains_key(k));
        }
        if has_account(m3, c2) && c2 != c {
            let k = choose|k: Key|
                #[trigger] m3.contains_key(k) && is_account_prefix(key_prefix(k)) && key_client(k)
                    == c2;
            assert(k != ka && k != kh);
            assert(m.contains_key(k));
        }
    }
    lemma_account_lines_same(m, m3, 0x1_0000);
}

pub open spec fn report_header() -> Seq<char> {
    "client,available,held,total,locked"@
}

/// The whole report: the header, then one line per client with an account
/// key, in increasing client order.
pub open spec fn report(m: Ledger) -> Seq<Seq<char>> {
    seq![report_header()] + account_lines(m, 0x1_0000)
}

/// The clients below `n` that have an account key, in increasing order.
spec fn listed_clients(m: Ledger, n: nat) -> Seq<ClientId>
    decreases n,
{
    if n == 0 {
        Seq::empty()
    } else if has_account(m, n - 1) {
        listed_clients(m, (n - 1) as nat).push((n - 1) as u16)
    } else {
        listed_clients(m, (n - 1) as nat)
    }
}

/// The report lines below `n` are the lines of the listed clients, which
/// have accounts, increase, and include every client below `n` with one.
proof fn lemma_listed_clients(m: Ledger, n: nat)
    requires
        n <= 0x1_0000,
    ensures
        account_lines(m, n).len() == listed_clients(m, n).len(),
        forall|i: int|
            0 <= i < listed_clients(m, n).len() ==> account_lines(m, n)[i] == account_line(
                m,
                #[trigger] listed_clients(m, n)[i],
            ) && has_account(m, listed_clients(m, n)[i] as int) && listed_clients(m, n)[i] < n,
        forall|i: int, j: int|
            0 <= i < j < listed_clients(m, n).len() ==> #[trigger] listed_clients(m, n)[i]
                < #[trigger] listed_clients(m, n)[j],
        forall|c: ClientId|
            c < n && has_account(m, c as int) ==> exists|i: int|
                0 <= i < listed_clients(m, n).len() && #[trigger] listed_clients(m, n)[i] == c,
    decreases n,
{
    if n > 0 {
        let k = (n - 1) as nat;
        lemma_listed_clients(m, k);
        let prev = listed_clients(m, k);
        if has_account(m, k as int) {
            let cur = listed_clients(m, n);
            assert(cur == prev.push(k as u16));
            assert forall|c: ClientId| c < n && has_account(m, c as int) implies exists|i: int|
                0 <= i < cur.len() && #[trigger] cur[i] == c by {
                if c == k {
                    assert(cur[prev.len() as int] == c);
                } else {
                    let i = choose|i: int| 0 <= i < prev.len() && #[trigger] prev[i] == c;
                    assert(cur[i] == c);
                }
            }
        }
    }
}

/// The report is the header, then one line for each client that has an
/// account key and for no other, each client once, in increasing order of
/// the client ids that the lines start with; each line is that client's line.
#[verifier::rlimit(40)]
pub proof fn lemma_report_lists_accounts(m: Ledger)
    ensures
        report(m).len() >= 1,
        report(m)[0] == "client,available,held,total,locked"@,
        forall|i: int|
            #![trigger report(m)[i]]
            1 <= i < report(m).len() ==> exists|c: ClientId|
                has_account(m, c as int) && #[trigger] account_line(m, c) == report(m)[i],
        forall|c: ClientId|
            has_account(m, c as int) ==> exists|i: int|
                1 <= i < report(m).len() && #[trigger] report(m)[i] == account_line(m, c),
        forall|i: int, j: int|
            1 <= i < j < report(m).len() ==> parse_u64_text(text_field(#[trigger] report(m)[i], 0))->0
                < parse_u64_text(text_field(#[trigger] report(m)[j], 0))->0,
{
    let l = listed_clients(m, 0x1_0000);
    let al = account_lines(m, 0x1_0000);
    let r = report(m);
    assert(r =~= seq![report_header()] + al);
    assert forall|i: int| #![trigger r[i]] 1 <= i < r.len() implies exists|c: ClientId|
        has_account(m, c as int) && #[trigger] account_line(m, c) == r[i] by {
        lemma_listed_clients(m, 0x1_0000);
        assert(r[i] == al[i - 1]);
        assert(al[i - 1] == account_line(m, l[i - 1]));
        assert(has_account(m, l[i - 1] as int));
    }
    assert forall|c: ClientId| has_account(m, c as int) implies exists|i: int|
        1 <= i < r.len() && #[trigger] r[i] == account_line(m, c) by {
        lemma_listed_clients(m, 0x1_0000);
        let i = choose|i: int| 0 <= i < l.len() && #[trigger] l[i] == c;
        assert(r[i + 1] == al[i]);
        assert(al[i] == account_line(m, l[i]));
    }
    assert forall|i: int, j: int| 1 <= i < j < r.len() implies parse_u64_text(
        text_field(#[trigger] r[i], 0),
    )->0 < parse_u64_text(text_field(#[trigger] r[j], 0))->0 by {
        lemma_listed_clients(m, 0x1_0000);
        assert(r[i] == al[i - 1]);
        assert(r[j] == al[j - 1]);
        assert(al[i - 1] == account_line(m, l[i - 1]));
        assert(al[j - 1] == account_line(m, l[j - 1]));
        assert(l[i - 1] < l[j - 1]);
        lemma_account_line_reads_back(m, l[i - 1]);
        lemma_account_line_reads_back(m, l[j - 1]);
    }
    assert(r[0] == "client,available,held,total,locked"@);
}

#[verifier::external_body]
pub(crate) fn push_char(s: &mut String, c: char)
    ensures
        final(s)@ == old(s)@.push(c),
{
    s.push(c)
}

fn digit(d: u64) -> (c: char)
    requires
        d < 10,
    ensures
        c == digit_char(d as int),
{
    ((d as u8) + 48u8) as char
}

pub(crate) fn push_decimal(out: &mut String, n: u64)
    ensures
        final(out)@ == old(out)@ + decimal(n as nat),
    decreases n,
{
    if n >= 10 {
        push_decimal(out, n / 10);
    }
    push_char(out, digit(n % 10));
}

fn push_amount(out: &mut String, v: u64)
    ensures
        final(out)@ == old(out)@ + amount_text(v),
{
    push_decimal(out, v / 10000);
    let f = v % 10000;
    push_char(out, '.');
    push_char(out, digit(f / 1000));
    push_char(out, digit((f / 100) % 10));
    push_char(out, digit((f / 10) % 10));
    push_char(out, digit(f % 10));
}

fn push_bool(out: &mut String, b: bool)
    ensures
        final(out)@ == old(out)@ + bool_text(b),
{
    if b {
        push_char(out, 't');
        push_char(out, 'r');
        push_char(out, 'u');
        push_char(out, 'e');
    } else {
        push_char(out, 'f');
        push_char(out, 'a');
        push_char(out, 'l');
        push_char(out, 's');
        push_char(out, 'e');
    }
}

/// Writes an amount in ten-thousandths as units and four decimals.
pub fn format_amount(val: u64) -> (r: String)
    ensures
        r@ == amount_text(val),
{
    let mut s = String::new();
    push_amount(&mut s, val);
    s
}

pub struct TransactionsEngine {
    store: Store,
}

impl View for TransactionsEngine {
    type V = Ledger;

    closed spec fn view(&self) -> Ledger {
        self.store@
    }
}

impl TransactionsEngine {
    pub fn new(store: Store) -> (e: Self)
        ensures
            e@ == store@,
    {
        Self { store }
    }

    fn get_amount(&self, key: Key) -> (r: u64)
        ensures
            r == amount_at(self@, key),
    {
        match self.store.get::<Amount>(key) {
            Some(a) => a.0,
            None => 0,
        }
    }

    fn is_locked(&self, client_id: ClientId) -> (r: bool)
        ensures
            r == locked_of(self@, client_id),
    {
        match self.store.get::<LockStatus>(locked_key(client_id)) {
            Some(l) => l.0,
            None => false,
        }
    }

    fn add_amount(&mut self, key: Key, amount: u64)
        requires
            amount_at(old(self)@, key) + amount <= u64::MAX,
        ensures
            final(self)@ == set_amount(old(self)@, key, amount_at(old(self)@, key) + amount),
    {
        let add = |value: Amount| -> (r: Amount)
            requires
                fits_sum(value, amount),
            ensures
                r == amount_plus(value, amount),
            { Amount(value.0 + amount) };
        self.store.upsert(key, Amount(0), add);
    }

    fn sub_amount(&mut self, key: Key, amount: u64)
        requires
            amount_at(old(self)@, key) >= amount,
        ensures
            final(self)@ == set_amount(old(self)@, key, amount_at(old(self)@, key) - amount),
    {
        let sub = |value: Amount| -> (r: Amount)
            requires
                covers(value, amount),
            ensures
                r == amount_minus(value, amount),
            { Amount(value.0 - amount) };
        self.store.upsert(key, Amount(0), sub);
    }

    fn saturating_sub_amount(&mut self, key: Key, amount: u64)
        ensures
            final(self)@ == set_amount(
                old(self)@,
                key,
                saturating_sub(amount_at(old(self)@, key), amount),
            ),
    {
        let sub = |value: Amount| -> (r: Amount)
            ensures
                r == amount_saturating_minus(value, amount),
            { Amount(value.0.saturating_sub(amount)) };
        self.store.upsert(key, Amount(0), sub);
    }

    /// Applies one item; returns false, and changes nothing, where the item
    /// would overflow a balance.
    pub fn apply(&mut self, item: &CsvItem) -> (ok: bool)
        ensures
            match step(old(self)@, *item) {
                Some(m) => ok && final(self)@ == m,
                None => !ok && final(self)@ == old(self)@,
            },
    {
        match item {
            CsvItem::Deposit(c, t, a) => {
                let (c, t, a) = (*c, *t, *a);
                if self.is_locked(c) {
                    return true;
                }
                if self.store.contains_key(trx_key(c, t)) {
                    return true;
                }
                let available = self.get_amount(available_key(c));
                let total = self.get_amount(total_key(c));
                if available > u64::MAX - a || total > u64::MAX - a {
                    return false;
                }
                let ghost m0 = self@;
                let rec = TransactionRecord {
                    client_id: c,
                    tx_id: t,
                    amount: a,
                    status: TxStatus::Normal,
                };
                self.store.put(trx_key(c, t), rec);
                assert(amount_at(self@, account_key(available_prefix(), c)) == available);
                self.add_amount(available_key(c), a);
                assert(amount_at(self@, account_key(total_prefix(), c)) == total);
                self.add_amount(total_key(c), a);
                true
            },
            CsvItem::Withdrawal(c, _t, a) => {
                let (c, a) = (*c, *a);
                if self.is_locked(c) {
                    return true;
                }
                let available = self.get_amount(available_key(c));
                if available < a {
                    return true;
                }
                let total = self.get_amount(total_key(c));
                if total < a {
                    return false;
                }
                self.sub_amount(available_key(c), a);
                assert(amount_at(self@, account_key(total_prefix(), c)) == total);
                self.sub_amount(total_key(c), a);
                true
            },
            CsvItem::Dispute(c, t) => {
                let (c, t) = (*c, *t);
                if self.is_locked(c) {
                    return true;
                }
                let rec = match self.store.get::<TransactionRecord>(trx_key(c, t)) {
                    Some(r) => r,
                    None => {
                        return true;
                    },
                };
                if rec.client_id != c || rec.status != TxStatus::Normal {
                    return true;
                }
                let amount = rec.amount;
                let held = self.get_amount(held_key(c));
                if held > u64::MAX - amount {
                    return false;
                }
                let available = self.get_amount(available_key(c));
                let updated = TransactionRecord { status: TxStatus::Disputed, ..rec };
                self.store.put(trx_key(c, t), updated);
                assert(amount_at(self@, account_key(available_prefix(), c)) == available);
                self.saturating_sub_amount(available_key(c), amount);
                assert(amount_at(self@, account_key(held_prefix(), c)) == held);
                self.add_amount(held_key(c), amount);
                true
            },
            CsvItem::Resolve(c, t) => {
                let (c, t) = (*c, *t);
                if self.is_locked(c) {
                    return true;
                }
                let rec = match self.store.get::<TransactionRecord>(trx_key(c, t)) {
                    Some(r) => r,
                    None => {
                        return true;
                    },
                };
                if rec.client_id != c || rec.status != TxStatus::Disputed {
                    return true;
                }
                let amount = rec.amount;
                let available = self.get_amount(available_key(c));
                if available > u64::MAX - amount {
                    return false;
                }
                let held = self.get_amount(held_key(c));
                let updated = TransactionRecord { status: TxStatus::Normal, ..rec };
                self.store.put(trx_key(c, t), updated);
                assert(amount_at(self@, account_key(available_prefix(), c)) == available);
                self.add_amount(available_key(c), amount);
                assert(amount_at(self@, account_key(held_prefix(), c)) == held);
                self.saturating_sub_amount(held_key(c), amount);
                true
            },
            CsvItem::ChargerBack(c, t) => {
                let (c, t) = (*c, *t);
                if self.is_locked(c) {
                    return true;
                }
                let rec = match self.store.get::<TransactionRecord>(trx_key(c, t)) {
                    Some(r) => r,
                    None => {
                        return true;
                    },
                };
                if rec.client_id != c || rec.status != TxStatus::Disputed {
                    return true;
                }
                let amount = rec.amount;
                let held = self.get_amount(held_key(c));
                let total = self.get_amount(total_key(c));
                let updated = TransactionRecord { status: TxStatus::ChargedBack, ..rec };
                self.store.put(trx_key(c, t), updated);
                assert(amount_at(self@, account_key(held_prefix(), c)) == held);
                self.saturating_sub_amount(held_key(c), amount);
                assert(amount_at(self@, account_key(total_prefix(), c)) == total);
                self.saturating_sub_amount(total_key(c), amount);
                self.store.put(locked_key(c), LockStatus(true));
                true
            },
        }
    }

    /// Applies the items in order. The feed must not overflow any balance
    /// (see `try_process` for a feed that may).
    pub fn process(&mut self, data: Vec<CsvItem>)
        requires
            run(old(self)@, data@) is Some,
        ensures
            run(old(self)@, data@) == Some(final(self)@),
    {
        let n = data.len();
        let mut i: usize = 0;
        while i < n
            invariant
                n == data@.len(),
                0 <= i <= n,
                run(old(self)@, data@) is Some,
                run(old(self)@, data@.take(i as int)) == Some(self@),
            decreases n - i,
        {
            proof {
                lemma_run_prefix_some(old(self)@, data@, (i + 1) as int);
                assert(data@.take(i + 1).drop_last() =~= data@.take(i as int));
            }
            self.apply(&data[i]);
            i = i + 1;
        }
        assert(data@.take(n as int) =~= data@);
    }

    /// Applies the items in order and stops before the first one that would
    /// overflow a balance, returning its index; the ledger is then what the
    /// items before it made of it.
    pub fn try_process(&mut self, data: Vec<CsvItem>) -> (r: Result<(), usize>)
        ensures
            match r {
                Ok(()) => run(old(self)@, data@) == Some(final(self)@),
                Err(k) => k < data@.len() && run(old(self)@, data@.take(k as int)) == Some(
                    final(self)@,
                ) && step(final(self)@, data@[k as int]) is None && run(old(self)@, data@) is None,
            },
    {
        let n = data.len();
        let mut i: usize = 0;
        while i < n
            invariant
                n == data@.len(),
                0 <= i <= n,
                run(old(self)@, data@.take(i as int)) == Some(self@),
            decreases n - i,
        {
            proof {
                assert(data@.take(i + 1).drop_last() =~= data@.take(i as int));
            }
            let ok = self.apply(&data[i]);
            if !ok {
                proof {
                    lemma_run_none_extends(old(self)@, data@, (i + 1) as int);
                    assert(data@.take(i + 1).last() == data@[i as int]);
                }
                return Err(i);
            }
            i = i + 1;
        }
        assert(data@.take(n as int) =~= data@);
        Ok(())
    }

    fn account_line_string(&self, c: ClientId) -> (r: String)
        ensures
            r@ == account_line(self@, c),
    {
        let mut s = String::new();
        push_decimal(&mut s, c as u64);
        push_char(&mut s, ',');
        push_amount(&mut s, self.get_amount(available_key(c)));
        push_char(&mut s, ',');
        push_amount(&mut s, self.get_amount(held_key(c)));
        push_char(&mut s, ',');
        push_amount(&mut s, self.get_amount(total_key(c)));
        push_char(&mut s, ',');
        push_bool(&mut s, self.is_locked(c));
        s
    }

    /// The balances report: a header line, then for each client that has an
    /// account key, in increasing client order, its id, available, held and
    /// total amounts and whether it is locked.
    pub fn as_csv(&self) -> (lines: Vec<String>)
        ensures
            lines@.len() == report(self@).len(),
            forall|i: int| 0 <= i < lines@.len() ==> #[trigger] lines@[i]@ == report(self@)[i],
    {
        let entries = self.store.iter();
        let mut present: Vec<bool> = vec![false; 0x1_0000];
        let mut i: usize = 0;
        while i < entries.len()
            invariant
                present@.len() == 0x1_0000,
                0 <= i <= entries@.len(),
                forall|c: int|
                    0 <= c < 0x1_0000 ==> (#[trigger] present@[c] <==> exists|j: int|
                        0 <= j < i && is_account_prefix(key_prefix(#[trigger] entries@[j].0))
                            && key_client(entries@[j].0) == c),
            decreases entries@.len() - i,
        {
            let k = entries[i].0;
            let p = k / 0x1_0000_0000_0000;
            let ghost old_present = present@;
            if p == 0x6361 || p == 0x6368 || p == 0x6374 || p == 0x636c {
                let c = ((k / 0x1_0000_0000) % 0x1_0000) as usize;
                present.set(c, true);
            }
            assert forall|c: int| 0 <= c < 0x1_0000 implies (#[trigger] present@[c] <==> exists|j: int|
                0 <= j < i + 1 && is_account_prefix(key_prefix(#[trigger] entries@[j].0))
                    && key_client(entries@[j].0) == c) by {
                if old_present[c] {
                    let j = choose|j: int|
                        0 <= j < i && is_account_prefix(key_prefix(#[trigger] entries@[j].0))
                            && key_client(entries@[j].0) == c;
                    assert(0 <= j < i + 1);
                }
            }
            i = i + 1;
        }
        let ghost m = self@;
        assert forall|c: int| 0 <= c < 0x1_0000 implies (#[trigger] present@[c] <==> has_account(m, c)) by {
            if present@[c] {
                let j = choose|j: int|
                    0 <= j < entries@.len() && is_account_prefix(key_prefix(#[trigger] entries@[j].0))
                        && key_client(entries@[j].0) == c;
                assert(m.contains_key(entries@[j].0));
            }
            if has_account(m, c) {
                let k = choose|k: Key| #[trigger] m.contains_key(k) && is_account_prefix(key_prefix(k))
                    && key_client(k) == c;
                let j = choose|j: int| 0 <= j < entries@.len() && #[trigger] entries@[j].0 == k;
            }
        }
        let mut lines: Vec<String> = Vec::new();
        lines.push("client,available,held,total,locked".to_owned());
        let mut c: usize = 0;
        while c < 0x1_0000
            invariant
                present@.len() == 0x1_0000,
                m == self@,
                forall|c: int| 0 <= c < 0x1_0000 ==> (#[trigger] present@[c] <==> has_account(m, c)),
                0 <= c <= 0x1_0000,
                lines@.len() == 1 + account_lines(m, c as nat).len(),
                lines@[0]@ == report_header(),
                forall|j: int|
                    0 <= j < account_lines(m, c as nat).len() ==> #[trigger] lines@[j + 1]@
                        == account_lines(m, c as nat)[j],
            decreases 0x1_0000 - c,
        {
            if present[c] {
                let line = self.account_line_string(c as u16);
                lines.push(line);
            }
            c = c + 1;
        }
        assert forall|i: int| 0 <= i < lines@.len() implies #[trigger] lines@[i]@ == report(m)[i] by {
            if i > 0 {
                assert(lines@[(i - 1) + 1]@ == account_lines(m, 0x1_0000)[i - 1]);
            }
        }
        lines
    }
}

} // verus!

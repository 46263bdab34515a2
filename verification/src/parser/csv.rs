//! The feed as CSV records: each record names a transaction type, a client,
//! a transaction and, for deposits and withdrawals, an amount.

use crate::parser::text::{amount_fails, amount_text_fails, amount_text_value, chars_of, parse_amount};
use crate::types::CsvItem;
use vstd::prelude::*;

verus! {

/// One record of the CSV feed, its columns already read.
pub struct CsvRecord {
    pub tx_type: String,
    pub client: u16,
    pub tx: u32,
    pub amount: Option<String>,
}

/// What `str::to_lowercase` gives for a text: its Unicode lowercase mapping.
pub uninterp spec fn lowercase_text(s: Seq<char>) -> Seq<char>;

/// Calls `str::to_lowercase`; its result is named, not described.
#[verifier::external_body]
fn to_lowercase(s: &str) -> (r: String)
    ensures
        r@ == lowercase_text(s@),
{
    s.to_lowercase()
}

/// The amount a record carries, read as a decimal amount.
pub open spec fn record_amount(r: CsvRecord) -> Option<u64> {
    match r.amount {
        Some(a) => amount_text_value(a@),
        None => None,
    }
}

/// The item that a record stands for, given its lowercased type: deposits and
/// withdrawals need a readable amount; unknown types stand for nothing.
pub open spec fn record_item(r: CsvRecord, lowered: Seq<char>) -> Option<CsvItem> {
    if lowered == "deposit"@ {
        match record_amount(r) {
            Some(v) => Some(CsvItem::Deposit(r.client, r.tx, v)),
            None => None,
        }
    } else if lowered == "withdrawal"@ {
        match record_amount(r) {
            Some(v) => Some(CsvItem::Withdrawal(r.client, r.tx, v)),
            None => None,
        }
    } else if lowered == "dispute"@ {
        Some(CsvItem::Dispute(r.client, r.tx))
    } else if lowered == "resolve"@ {
        Some(CsvItem::Resolve(r.client, r.tx))
    } else if lowered == "chargerback"@ || lowered == "chargeback"@ {
        Some(CsvItem::ChargerBack(r.client, r.tx))
    } else {
        None
    }
}

/// Each record reads as the item that its lowercased type names, for the
/// record's own client and transaction (and, for deposits and withdrawals,
/// the amount its text reads as); a record of no known type reads as nothing.
pub proof fn lemma_record_reads_as_its_type(r: CsvRecord, lowered: Seq<char>)
    ensures
        lowered == "dispute"@ ==> record_item(r, lowered) == Some(CsvItem::Dispute(r.client, r.tx)),
        lowered == "resolve"@ ==> record_item(r, lowered) == Some(CsvItem::Resolve(r.client, r.tx)),
        lowered == "chargeback"@ || lowered == "chargerback"@ ==> record_item(r, lowered) == Some(
            CsvItem::ChargerBack(r.client, r.tx),
        ),
        lowered == "deposit"@ && r.amount is Some && amount_text_value(r.amount->0@) is Some
            ==> record_item(r, lowered) == Some(
            CsvItem::Deposit(r.client, r.tx, amount_text_value(r.amount->0@)->0),
        ),
        lowered == "withdrawal"@ && r.amount is Some && amount_text_value(r.amount->0@) is Some
            ==> record_item(r, lowered) == Some(
            CsvItem::Withdrawal(r.client, r.tx, amount_text_value(r.amount->0@)->0),
        ),
        (lowered == "deposit"@ || lowered == "withdrawal"@) && (r.amount is None
            || amount_text_value(r.amount->0@) is None) ==> record_item(r, lowered) is None,
        lowered != "deposit"@ && lowered != "withdrawal"@ && lowered != "dispute"@ && lowered
            != "resolve"@ && lowered != "chargeback"@ && lowered != "chargerback"@ ==> record_item(
            r,
            lowered,
        ) is None,
{
    reveal_strlit("deposit");
    reveal_strlit("withdrawal");
    reveal_strlit("dispute");
    reveal_strlit("resolve");
    reveal_strlit("chargeback");
    reveal_strlit("chargerback");
    assert("deposit"@.len() == 7 && "dispute"@.len() == 7 && "resolve"@.len() == 7);
    assert("withdrawal"@.len() == 10 && "chargeback"@.len() == 10 && "chargerback"@.len() == 11);
    assert("dispute"@ != "deposit"@) by {
        assert("dispute"@[1] != "deposit"@[1]);
    }
    assert("resolve"@ != "deposit"@) by {
        assert("resolve"@[0] != "deposit"@[0]);
    }
    assert("resolve"@ != "dispute"@) by {
        assert("resolve"@[0] != "dispute"@[0]);
    }
    assert("chargeback"@ != "withdrawal"@) by {
        assert("chargeback"@[0] != "withdrawal"@[0]);
    }
}

/// Whether reading a record fails hard: a deposit or withdrawal whose amount
/// text makes the amount reading fail (see `amount_text_fails`).
pub open spec fn record_fails(r: CsvRecord, lowered: Seq<char>) -> bool {
    &&& (lowered == "deposit"@ || lowered == "withdrawal"@)
    &&& r.amount matches Some(a) && amount_text_fails(a@)
}

/// The items that a sequence of records stands for, in order.
pub open spec fn csv_items(rs: Seq<CsvRecord>) -> Seq<CsvItem>
    decreases rs.len(),
{
    if rs.len() == 0 {
        Seq::empty()
    } else {
        let r = rs.last();
        match record_item(r, lowercase_text(r.tx_type@)) {
            Some(item) => csv_items(rs.drop_last()).push(item),
            None => csv_items(rs.drop_last()),
        }
    }
}

/// The items of records read one after the other are the items of each
/// group, in order.
pub proof fn lemma_csv_items_append(a: Seq<CsvRecord>, b: Seq<CsvRecord>)
    ensures
        csv_items(a + b) == csv_items(a) + csv_items(b),
    decreases b.len(),
{
    if b.len() == 0 {
        assert(a + b =~= a);
        assert(csv_items(a) + csv_items(b) =~= csv_items(a));
    } else {
        lemma_csv_items_append(a, b.drop_last());
        assert((a + b).drop_last() =~= a + b.drop_last());
        assert((a + b).last() == b.last());
        let r = b.last();
        match record_item(r, lowercase_text(r.tx_type@)) {
            Some(item) => {
                assert(csv_items(a) + csv_items(b) =~= (csv_items(a) + csv_items(b.drop_last())).push(item));
            },
            None => {},
        }
    }
}

/// One record reads as its item, or as nothing.
pub proof fn lemma_csv_items_single(r: CsvRecord)
    ensures
        csv_items(seq![r]) == (match record_item(r, lowercase_text(r.tx_type@)) {
            Some(item) => seq![item],
            None => Seq::empty(),
        }),
{
    assert(seq![r].drop_last() =~= Seq::<CsvRecord>::empty());
    assert(csv_items(Seq::<CsvRecord>::empty()) == Seq::<CsvItem>::empty());
    assert(seq![r].last() == r);
    assert(Seq::<CsvItem>::empty().push(record_item(r, lowercase_text(r.tx_type@))->0) =~= seq![
        record_item(r, lowercase_text(r.tx_type@))->0,
    ]);
}

fn same_text(v: &Vec<char>, lit: &str) -> (r: bool)
    ensures
        r == (v@ == lit@),
{
    let w = chars_of(lit);
    if v.len() != w.len() {
        return false;
    }
    let mut i: usize = 0;
    while i < v.len()
        invariant
            v@.len() == w@.len(),
            w@ == lit@,
            0 <= i <= v@.len(),
            forall|j: int| 0 <= j < i ==> v@[j] == w@[j],
        decreases v@.len() - i,
    {
        if v[i] != w[i] {
            assert(v@[i as int] != lit@[i as int]);
            return false;
        }
        i = i + 1;
    }
    assert(v@ =~= w@);
    true
}

/// The item that a record stands for, given its lowercased type (see
/// `record_item`).
pub fn record_to_item(rec: &CsvRecord, lowered: &str) -> (r: Option<CsvItem>)
    requires
        !record_fails(*rec, lowered@),
    ensures
        r == record_item(*rec, lowered@),
{
    let t = chars_of(lowered);
    if same_text(&t, "deposit") {
        match &rec.amount {
            Some(a) => match parse_amount(a.as_str()) {
                Some(v) => Some(CsvItem::Deposit(rec.client, rec.tx, v)),
                None => None,
            },
            None => None,
        }
    } else if same_text(&t, "withdrawal") {
        match &rec.amount {
            Some(a) => match parse_amount(a.as_str()) {
                Some(v) => Some(CsvItem::Withdrawal(rec.client, rec.tx, v)),
                None => None,
            },
            None => None,
        }
    } else if same_text(&t, "dispute") {
        Some(CsvItem::Dispute(rec.client, rec.tx))
    } else if same_text(&t, "resolve") {
        Some(CsvItem::Resolve(rec.client, rec.tx))
    } else if same_text(&t, "chargerback") || same_text(&t, "chargeback") {
        Some(CsvItem::ChargerBack(rec.client, rec.tx))
    } else {
        None
    }
}

/// Whether reading a record fails hard, given its lowercased type (see
/// `record_fails`).
fn record_fails_exec(rec: &CsvRecord, lowered: &str) -> (r: bool)
    ensures
        r == record_fails(*rec, lowered@),
{
    let t = chars_of(lowered);
    if same_text(&t, "deposit") || same_text(&t, "withdrawal") {
        match &rec.amount {
            Some(a) => amount_fails(a.as_str()),
            None => false,
        }
    } else {
        false
    }
}

/// The items that the records stand for, in order. Where reading a record
/// fails hard, the index of the first such record.
pub fn parse_csv(records: &Vec<CsvRecord>) -> (r: Result<Vec<CsvItem>, usize>)
    ensures
        match r {
            Ok(items) => items@ == csv_items(records@) && forall|i: int|
                0 <= i < records@.len() ==> !record_fails(
                    #[trigger] records@[i],
                    lowercase_text(records@[i].tx_type@),
                ),
            Err(k) => k < records@.len() && record_fails(
                records@[k as int],
                lowercase_text(records@[k as int].tx_type@),
            ) && forall|i: int|
                0 <= i < k ==> !record_fails(
                    #[trigger] records@[i],
                    lowercase_text(records@[i].tx_type@),
                ),
        },
{
    let mut items: Vec<CsvItem> = Vec::new();
    let mut i: usize = 0;
    while i < records.len()
        invariant
            0 <= i <= records@.len(),
            items@ == csv_items(records@.take(i as int)),
            forall|j: int|
                0 <= j < i ==> !record_fails(
                    #[trigger] records@[j],
                    lowercase_text(records@[j].tx_type@),
                ),
        decreases records@.len() - i,
    {
        let rec = &records[i];
        let lowered = to_lowercase(rec.tx_type.as_str());
        if record_fails_exec(rec, lowered.as_str()) {
            return Err(i);
        }
        assert(records@.take(i + 1).drop_last() =~= records@.take(i as int));
        match record_to_item(rec, lowered.as_str()) {
            Some(item) => items.push(item),
            None => {},
        }
        i = i + 1;
    }
    assert(records@.take(i as int) =~= records@);
    Ok(items)
}

} // verus!

//! Lines of the transaction feed that name a client and a transaction only.

use crate::transactions::{decimal, push_char, push_decimal};
use crate::types::{ClientId, TrxId};
use vstd::prelude::*;

verus! {

/// The feed line `word,client,trx,` of a claim on a transaction.
pub open spec fn claim_line(word: Seq<char>, client: ClientId, trx: TrxId) -> Seq<char> {
    word + seq![','] + decimal(client as nat) + seq![','] + decimal(trx as nat) + seq![',']
}

fn push_str(out: &mut String, s: &str)
    ensures
        final(out)@ == old(out)@ + s@,
{
    let chars = crate::parser::text::chars_of(s);
    let mut i: usize = 0;
    while i < chars.len()
        invariant
            0 <= i <= chars@.len(),
            chars@ == s@,
            out@ == old(out)@ + chars@.take(i as int),
        decreases chars@.len() - i,
    {
        push_char(out, chars[i]);
        assert(chars@.take(i + 1) =~= chars@.take(i as int).push(chars@[i as int]));
        i = i + 1;
    }
    assert(chars@.take(i as int) =~= chars@);
}

fn claim(word: &str, client: ClientId, trx: TrxId) -> (r: String)
    ensures
        r@ == claim_line(word@, client, trx),
{
    let mut s = String::new();
    push_str(&mut s, word);
    push_char(&mut s, ',');
    push_decimal(&mut s, client as u64);
    push_char(&mut s, ',');
    push_decimal(&mut s, trx as u64);
    push_char(&mut s, ',');
    assert(s@ =~= claim_line(word@, client, trx));
    s
}

/// The feed line that disputes a transaction.
pub fn dispute_line(client: ClientId, trx: TrxId) -> (r: String)
    ensures
        r@ == claim_line("dispute"@, client, trx),
{
    claim("dispute", client, trx)
}

/// The feed line that resolves a dispute.
pub fn resolve_line(client: ClientId, trx: TrxId) -> (r: String)
    ensures
        r@ == claim_line("resolve"@, client, trx),
{
    claim("resolve", client, trx)
}

/// The feed line that charges back a disputed transaction.
pub fn chargeback_line(client: ClientId, trx: TrxId) -> (r: String)
    ensures
        r@ == claim_line("chargerback"@, client, trx),
{
    claim("chargerback", client, trx)
}

} // verus!

//! Reading the two ask prices out of an order-book document, through
//! `serde_json`.
use vstd::prelude::*;
use vstd::utf8::encode_utf8;
use crate::quote::{parse_quote, quote_micros};

verus! {

/// The text of the number that `serde_json` finds in a document at
/// `list[index].field`; `None` where the document is not accepted by
/// `serde_json::from_str`, or the path is missing, or it does not lead to a
/// number. It depends on its arguments alone.
pub uninterp spec fn json_number_text(
    doc: Seq<char>,
    list: Seq<char>,
    index: nat,
    field: Seq<char>,
) -> Option<Seq<char>>;

/// Relies on `serde_json::from_str::<Value>`, `Value::get` (by key and by
/// array index), `Value::as_number` and the `Display` impl of `Number`: the
/// text of the number at `list[index].field`, if there is one.
#[verifier::external_body]
fn number_text_at(doc: &str, list: &str, index: usize, field: &str) -> (r: Option<String>)
    ensures
        match json_number_text(doc@, list@, index as nat, field@) {
            None => r.is_none(),
            Some(t) => r.is_some() && r.unwrap()@ == t,
        },
{
    let v = serde_json::from_str::<serde_json::Value>(doc).ok()?;
    let n = v.get(list)?.get(index)?.get(field)?.as_number()?;
    Some(n.to_string())
}

/// The price, in millionths, that a document gives at `rewards[index].price`:
/// `None` where there is no number there.
pub open spec fn reward_quote(doc: Seq<char>, index: nat) -> Option<i64> {
    match json_number_text(doc, seq!['r', 'e', 'w', 'a', 'r', 'd', 's'], index, seq!['p', 'r', 'i', 'c', 'e']) {
        None => None,
        Some(t) => match quote_micros(encode_utf8(t)) {
            None => None,
            Some(q) => Some(q as i64),
        },
    }
}

/// The price, in millionths, at `rewards[index].price` of a document.
fn reward_price(document: &str, index: usize) -> (r: Option<i64>)
    ensures
        r == reward_quote(document@, index as nat),
{
    let list = "rewards";
    let field = "price";
    proof {
        reveal_strlit("rewards");
        reveal_strlit("price");
        assert(list@ =~= seq!['r', 'e', 'w', 'a', 'r', 'd', 's']);
        assert(field@ =~= seq!['p', 'r', 'i', 'c', 'e']);
    }
    match number_text_at(document, list, index, field) {
        None => None,
        Some(text) => parse_quote(text.as_str().as_bytes()),
    }
}

/// The yes and no ask prices of an order-book document, in millionths:
/// `rewards[0].price` and `rewards[1].price`. Each is `None` where the
/// document does not parse or the field is missing or not a number.
pub fn extract_quotes(document: &str) -> (r: (Option<i64>, Option<i64>))
    ensures
        r == (reward_quote(document@, 0), reward_quote(document@, 1)),
{
    (reward_price(document, 0), reward_price(document, 1))
}

} // verus!

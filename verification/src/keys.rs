//! The keys under which transactions are stored.
//!
//! A key is made of the identifiers that name the transaction, with a byte between them that
//! occurs in none of them.

use vstd::prelude::*;
use vstd::utf8::{
    encode_utf8, encode_utf8_decode_utf8, encode_utf8_valid_utf8,
    length_of_first_scalar, pop_first_scalar, valid_utf8,
};

use crate::ids::{DeviceId, ServerName, TransactionId, UserId};

verus! {

/// The byte between the parts of a key.
pub const SEPARATOR: u8 = 0xFF;

/// Two byte strings with the separator between them.
pub open spec fn joined(first: Seq<u8>, second: Seq<u8>) -> Seq<u8> {
    first.push(SEPARATOR) + second
}

/// The key of a transaction that the server `origin` sent.
pub open spec fn federation_key(origin: Seq<char>, txn_id: Seq<char>) -> Seq<u8> {
    joined(encode_utf8(origin), encode_utf8(txn_id))
}

/// What stands for the device in a key: nothing where there is none.
pub open spec fn device_text(device: Option<Seq<char>>) -> Seq<char> {
    match device {
        Some(id) => id,
        None => Seq::empty(),
    }
}

/// The key of a request that a user sent from a device.
pub open spec fn user_device_key(
    user: Seq<char>,
    device: Option<Seq<char>>,
    txn_id: Seq<char>,
) -> Seq<u8> {
    joined(encode_utf8(user), joined(encode_utf8(device_text(device)), encode_utf8(txn_id)))
}

/// The characters of a device identifier, where there is one.
pub open spec fn device_view(device_id: Option<&DeviceId>) -> Option<Seq<char>> {
    match device_id {
        Some(id) => Some(id@),
        None => None,
    }
}

/// Builds the key of a transaction that the server `origin` sent.
pub fn federation_txnid_key(origin: &ServerName, txn_id: &TransactionId) -> (key: Vec<u8>)
    ensures
        key@ == federation_key(origin@, txn_id@),
        key@ == encode_utf8(origin@) + seq![0xFFu8] + encode_utf8(txn_id@),
{
    let mut key: Vec<u8> = Vec::new();
    key.extend_from_slice(origin.as_bytes());
    key.push(SEPARATOR);
    key.extend_from_slice(txn_id.as_bytes());
    assert(key@ =~= federation_key(origin@, txn_id@));
    assert(key@ =~= encode_utf8(origin@) + seq![0xFFu8] + encode_utf8(txn_id@));
    key
}

/// Builds the key of a request that a user sent from a device.
pub fn userdevicetxnid_key(
    user_id: &UserId,
    device_id: Option<&DeviceId>,
    txn_id: &TransactionId,
) -> (key: Vec<u8>)
    ensures
        key@ == user_device_key(user_id@, device_view(device_id), txn_id@),
        key@ == encode_utf8(user_id@) + seq![0xFFu8] + (match device_id {
            Some(device) => encode_utf8(device@),
            None => Seq::empty(),
        }) + seq![0xFFu8] + encode_utf8(txn_id@),
{
    let mut key: Vec<u8> = Vec::new();
    key.extend_from_slice(user_id.as_bytes());
    key.push(SEPARATOR);
    if let Some(device) = device_id {
        key.extend_from_slice(device.as_bytes());
    }
    key.push(SEPARATOR);
    key.extend_from_slice(txn_id.as_bytes());
    assert(encode_utf8(Seq::<char>::empty()) =~= Seq::<u8>::empty());
    assert(key@ =~= user_device_key(user_id@, device_view(device_id), txn_id@));
    assert(key@ =~= encode_utf8(user_id@) + seq![0xFFu8] + (match device_id {
        Some(device) => encode_utf8(device@),
        None => Seq::empty(),
    }) + seq![0xFFu8] + encode_utf8(txn_id@));
    key
}

/// UTF-8 never uses the byte that separates the parts of a key.
proof fn lemma_utf8_has_no_separator(bytes: Seq<u8>)
    requires
        valid_utf8(bytes),
    ensures
        forall|i: int| 0 <= i < bytes.len() ==> bytes[i] != SEPARATOR,
    decreases bytes.len(),
{
    if bytes.len() != 0 {
        let width = length_of_first_scalar(bytes);
        let rest = pop_first_scalar(bytes);
        lemma_utf8_has_no_separator(rest);
        assert forall|i: int| 0 <= i < bytes.len() implies bytes[i] != SEPARATOR by {
            if i >= width {
                assert(bytes[i] == rest[i - width]);
            }
        }
    }
}

/// A joined pair falls apart in one way only, where the first part has no separator.
proof fn lemma_joined_is_injective(a: Seq<u8>, b: Seq<u8>, c: Seq<u8>, d: Seq<u8>)
    requires
        forall|i: int| 0 <= i < a.len() ==> a[i] != SEPARATOR,
        forall|i: int| 0 <= i < c.len() ==> c[i] != SEPARATOR,
        joined(a, b) == joined(c, d),
    ensures
        a == c,
        b == d,
{
    let whole = joined(a, b);
    assert(whole[a.len() as int] == SEPARATOR);
    assert(joined(c, d)[c.len() as int] == SEPARATOR);
    if a.len() < c.len() {
        assert(joined(c, d)[a.len() as int] == c[a.len() as int]);
    }
    if c.len() < a.len() {
        assert(whole[c.len() as int] == a[c.len() as int]);
    }
    assert forall|i: int| 0 <= i < a.len() implies a[i] == c[i] by {
        assert(whole[i] == a[i]);
        assert(joined(c, d)[i] == c[i]);
    }
    assert(a =~= c);
    assert(whole.len() == a.len() + 1 + b.len());
    assert(whole.len() == c.len() + 1 + d.len());
    assert forall|i: int| 0 <= i < b.len() implies b[i] == d[i] by {
        assert(whole[a.len() + 1 + i] == b[i]);
        assert(joined(c, d)[c.len() + 1 + i] == d[i]);
    }
    assert(b =~= d);
}

/// Different strings have different bytes.
proof fn lemma_encode_utf8_is_injective(a: Seq<char>, b: Seq<char>)
    requires
        encode_utf8(a) == encode_utf8(b),
    ensures
        a == b,
{
    encode_utf8_decode_utf8(a);
    encode_utf8_decode_utf8(b);
}

/// The key of a federation transaction holds the byte `0xFF` once: before it stand the bytes of the
/// origin, and after it those of the identifier.
pub proof fn law_federation_key_has_origin_then_transaction(origin: Seq<char>, txn_id: Seq<char>)
    ensures
        ({
            let key = federation_key(origin, txn_id);
            let cut = encode_utf8(origin).len() as int;
            &&& key.len() == encode_utf8(origin).len() + 1 + encode_utf8(txn_id).len()
            &&& key.subrange(0, cut) == encode_utf8(origin)
            &&& key.subrange(cut + 1, key.len() as int) == encode_utf8(txn_id)
            &&& forall|i: int| 0 <= i < key.len() ==> (#[trigger] key[i] == 0xFF <==> i == cut)
        }),
{
    let key = federation_key(origin, txn_id);
    let cut = encode_utf8(origin).len() as int;
    encode_utf8_valid_utf8(origin);
    encode_utf8_valid_utf8(txn_id);
    lemma_utf8_has_no_separator(encode_utf8(origin));
    lemma_utf8_has_no_separator(encode_utf8(txn_id));
    assert(key.subrange(0, cut) =~= encode_utf8(origin));
    assert(key.subrange(cut + 1, key.len() as int) =~= encode_utf8(txn_id));
    assert forall|i: int| 0 <= i < key.len() implies (#[trigger] key[i] == 0xFF <==> i == cut) by {
        if i < cut {
            assert(key[i] == encode_utf8(origin)[i]);
        } else if i > cut {
            assert(key[i] == encode_utf8(txn_id)[i - cut - 1]);
        }
    }
}

/// The key of a client request holds the byte `0xFF` twice: before the first one stand the bytes of
/// the user, between the two those of the device, or none where there is no device, and after the
/// second one those of the transaction identifier.
pub proof fn law_user_device_key_has_user_then_device_then_transaction(
    user: Seq<char>,
    device: Option<Seq<char>>,
    txn_id: Seq<char>,
)
    ensures
        ({
            let key = user_device_key(user, device, txn_id);
            let device_bytes = match device {
                Some(id) => encode_utf8(id),
                None => Seq::empty(),
            };
            let one = encode_utf8(user).len() as int;
            let two = one + 1 + device_bytes.len();
            &&& key.len() == two + 1 + encode_utf8(txn_id).len()
            &&& key.subrange(0, one) == encode_utf8(user)
            &&& key.subrange(one + 1, two) == device_bytes
            &&& key.subrange(two + 1, key.len() as int) == encode_utf8(txn_id)
            &&& forall|i: int|
                0 <= i < key.len() ==> (#[trigger] key[i] == 0xFF <==> i == one || i == two)
        }),
{
    let key = user_device_key(user, device, txn_id);
    let device_bytes = match device {
        Some(id) => encode_utf8(id),
        None => Seq::empty(),
    };
    let one = encode_utf8(user).len() as int;
    let two = one + 1 + device_bytes.len();
    assert(encode_utf8(Seq::<char>::empty()) =~= Seq::<u8>::empty());
    assert(device_bytes == encode_utf8(device_text(device)));
    encode_utf8_valid_utf8(user);
    encode_utf8_valid_utf8(device_text(device));
    encode_utf8_valid_utf8(txn_id);
    lemma_utf8_has_no_separator(encode_utf8(user));
    lemma_utf8_has_no_separator(device_bytes);
    lemma_utf8_has_no_separator(encode_utf8(txn_id));
    assert(key.subrange(0, one) =~= encode_utf8(user));
    assert(key.subrange(one + 1, two) =~= device_bytes);
    assert(key.subrange(two + 1, key.len() as int) =~= encode_utf8(txn_id));
    assert forall|i: int| 0 <= i < key.len() implies (#[trigger] key[i] == 0xFF <==> i == one || i
        == two) by {
        if i < one {
            assert(key[i] == encode_utf8(user)[i]);
        } else if one < i < two {
            assert(key[i] == device_bytes[i - one - 1]);
        } else if two < i {
            assert(key[i] == encode_utf8(txn_id)[i - two - 1]);
        }
    }
}

/// Two federation transactions have the same key only if they have the same origin and the same
/// identifier.
pub proof fn law_federation_keys_are_distinct(
    origin_a: Seq<char>,
    txn_a: Seq<char>,
    origin_b: Seq<char>,
    txn_b: Seq<char>,
)
    ensures
        federation_key(origin_a, txn_a) == federation_key(origin_b, txn_b) <==> (origin_a
            == origin_b && txn_a == txn_b),
{
    if federation_key(origin_a, txn_a) == federation_key(origin_b, txn_b) {
        encode_utf8_valid_utf8(origin_a);
        encode_utf8_valid_utf8(origin_b);
        lemma_utf8_has_no_separator(encode_utf8(origin_a));
        lemma_utf8_has_no_separator(encode_utf8(origin_b));
        lemma_joined_is_injective(
            encode_utf8(origin_a),
            encode_utf8(txn_a),
            encode_utf8(origin_b),
            encode_utf8(txn_b),
        );
        lemma_encode_utf8_is_injective(origin_a, origin_b);
        lemma_encode_utf8_is_injective(txn_a, txn_b);
    }
}

/// Two requests have the same key only if they have the same user, device and identifier, where
/// a missing device counts as one with an empty identifier.
pub proof fn law_user_device_keys_are_distinct(
    user_a: Seq<char>,
    device_a: Option<Seq<char>>,
    txn_a: Seq<char>,
    user_b: Seq<char>,
    device_b: Option<Seq<char>>,
    txn_b: Seq<char>,
)
    ensures
        user_device_key(user_a, device_a, txn_a) == user_device_key(user_b, device_b, txn_b) <==> (
        user_a == user_b && device_text(device_a) == device_text(device_b) && txn_a == txn_b),
{
    let dev_a = device_text(device_a);
    let dev_b = device_text(device_b);
    if user_device_key(user_a, device_a, txn_a) == user_device_key(user_b, device_b, txn_b) {
        encode_utf8_valid_utf8(user_a);
        encode_utf8_valid_utf8(user_b);
        encode_utf8_valid_utf8(dev_a);
        encode_utf8_valid_utf8(dev_b);
        lemma_utf8_has_no_separator(encode_utf8(user_a));
        lemma_utf8_has_no_separator(encode_utf8(user_b));
        lemma_utf8_has_no_separator(encode_utf8(dev_a));
        lemma_utf8_has_no_separator(encode_utf8(dev_b));
        lemma_joined_is_injective(
            encode_utf8(user_a),
            joined(encode_utf8(dev_a), encode_utf8(txn_a)),
            encode_utf8(user_b),
            joined(encode_utf8(dev_b), encode_utf8(txn_b)),
        );
        lemma_joined_is_injective(
            encode_utf8(dev_a),
            encode_utf8(txn_a),
            encode_utf8(dev_b),
            encode_utf8(txn_b),
        );
        lemma_encode_utf8_is_injective(user_a, user_b);
        lemma_encode_utf8_is_injective(dev_a, dev_b);
        lemma_encode_utf8_is_injective(txn_a, txn_b);
    }
}

} // verus!

//! RLP lists of two fields, and the items they are made of.

use crate::octets::{append_bytes, copy_bytes, copy_range};
use vstd::prelude::*;

verus! {

/// What `alloy_rlp::Header::decode` reads from the front of `input`: whether the
/// item is a list, its payload length, and the bytes behind the header.
pub uninterp spec fn rlp_header(input: Seq<u8>) -> Option<(bool, nat, Seq<u8>)>;

/// What `<u32 as alloy_rlp::Decodable>::decode` reads from the front of `input`:
/// the number and the bytes behind it.
pub uninterp spec fn rlp_u32(input: Seq<u8>) -> Option<(u32, Seq<u8>)>;

/// What `<u64 as alloy_rlp::Decodable>::decode` reads from the front of `input`:
/// the number and the bytes behind it.
pub uninterp spec fn rlp_u64(input: Seq<u8>) -> Option<(u64, Seq<u8>)>;

/// What `<bytes::Bytes as alloy_rlp::Decodable>::decode` reads from the front of
/// `input`: the string and the bytes behind it.
pub uninterp spec fn rlp_string(input: Seq<u8>) -> Option<(Seq<u8>, Seq<u8>)>;

/// The bytes of a number, the most significant first, without leading zeros.
pub open spec fn big_endian(value: nat) -> Seq<u8>
    decreases value,
{
    if value == 0 {
        Seq::empty()
    } else {
        big_endian(value / 256).push((value % 256) as u8)
    }
}

/// The header of an item of `length` bytes: `code` tells strings from lists. A long
/// item states how many bytes its length takes, then its length.
pub open spec fn rlp_item_header(code: u8, length: nat) -> Seq<u8> {
    if length < 56 {
        seq![(code + length) as u8]
    } else {
        seq![(code + 55 + big_endian(length).len()) as u8] + big_endian(length)
    }
}

/// The header of a list whose items take `payload_length` bytes.
pub open spec fn rlp_list_header(payload_length: nat) -> Seq<u8> {
    rlp_item_header(0xc0, payload_length)
}

/// The item that stands for a byte string: one small byte stands for itself.
pub open spec fn rlp_string_item(value: Seq<u8>) -> Seq<u8> {
    if value.len() == 1 && value[0] < 0x80 {
        value
    } else {
        rlp_item_header(0x80, value.len()) + value
    }
}

/// The item that stands for a 32-bit number.
pub open spec fn rlp_u32_item(value: u32) -> Seq<u8> {
    rlp_string_item(big_endian(value as nat))
}

/// The item that stands for a 64-bit number.
pub open spec fn rlp_u64_item(value: u64) -> Seq<u8> {
    rlp_string_item(big_endian(value as nat))
}

/// Calls `alloy_rlp::Header::decode`. Claims that what it reads is a function of
/// the input alone, named [`rlp_header`], that it leaves no more bytes than it was
/// given, and that those hold the payload.
#[verifier::external_body]
fn take_header(input: &Vec<u8>) -> (header: Option<(bool, usize, Vec<u8>)>)
    ensures
        match header {
            None => rlp_header(input@) is None,
            Some((list, length, rest)) => {
                &&& rlp_header(input@) == Some((list, length as nat, rest@))
                &&& rest@.len() <= input@.len()
                &&& length <= rest@.len()
            },
        },
{
    let mut rest: &[u8] = input.as_slice();
    match alloy_rlp::Header::decode(&mut rest) {
        Ok(header) => Some((header.list, header.payload_length, rest.to_vec())),
        Err(_) => None,
    }
}

/// Calls `<u32 as alloy_rlp::Decodable>::decode`. Claims that what it reads is a
/// function of the input alone, named [`rlp_u32`], and that it takes at least one byte.
#[verifier::external_body]
fn take_u32(input: &Vec<u8>) -> (item: Option<(u32, Vec<u8>)>)
    ensures
        match item {
            None => rlp_u32(input@) is None,
            Some((value, rest)) => rlp_u32(input@) == Some((value, rest@)) && rest@.len() < input@.len(),
        },
{
    let mut rest: &[u8] = input.as_slice();
    match <u32 as alloy_rlp::Decodable>::decode(&mut rest) {
        Ok(value) => Some((value, rest.to_vec())),
        Err(_) => None,
    }
}

/// Calls `<u64 as alloy_rlp::Decodable>::decode`. Claims that what it reads is a
/// function of the input alone, named [`rlp_u64`], and that it takes at least one byte.
#[verifier::external_body]
fn take_u64(input: &Vec<u8>) -> (item: Option<(u64, Vec<u8>)>)
    ensures
        match item {
            None => rlp_u64(input@) is None,
            Some((value, rest)) => rlp_u64(input@) == Some((value, rest@)) && rest@.len() < input@.len(),
        },
{
    let mut rest: &[u8] = input.as_slice();
    match <u64 as alloy_rlp::Decodable>::decode(&mut rest) {
        Ok(value) => Some((value, rest.to_vec())),
        Err(_) => None,
    }
}

/// Calls `<bytes::Bytes as alloy_rlp::Decodable>::decode`. Claims that what it
/// reads is a function of the input alone, named [`rlp_string`], and that it takes
/// at least one byte.
#[verifier::external_body]
fn take_string(input: &Vec<u8>) -> (item: Option<(Vec<u8>, Vec<u8>)>)
    ensures
        match item {
            None => rlp_string(input@) is None,
            Some((value, rest)) => rlp_string(input@) == Some((value@, rest@)) && rest@.len()
                < input@.len(),
        },
{
    let mut rest: &[u8] = input.as_slice();
    match <bytes::Bytes as alloy_rlp::Decodable>::decode(&mut rest) {
        Ok(value) => Some((value.to_vec(), rest.to_vec())),
        Err(_) => None,
    }
}

/// Calls `alloy_rlp::Header::encode` for a list. Claims that the header is
/// [`rlp_list_header`] of the length, and that it is read back in front of a payload
/// of that length.
#[verifier::external_body]
fn list_header(payload_length: usize) -> (header: Vec<u8>)
    ensures
        header@ == rlp_list_header(payload_length as nat),
        forall|rest: Seq<u8>|
            rest.len() >= payload_length ==> #[trigger] rlp_header(header@ + rest) == Some(
                (true, payload_length as nat, rest),
            ),
{
    let mut header: Vec<u8> = Vec::new();
    alloy_rlp::Header { list: true, payload_length }.encode(&mut header);
    header
}

/// Calls `<u32 as alloy_rlp::Encodable>::encode`. Claims that the item is
/// [`rlp_u32_item`] of the number, that it is not empty, and that it is read back.
#[verifier::external_body]
fn u32_item(value: u32) -> (item: Vec<u8>)
    ensures
        item@ == rlp_u32_item(value),
        item@.len() >= 1,
        forall|rest: Seq<u8>| #[trigger] rlp_u32(item@ + rest) == Some((value, rest)),
{
    let mut item: Vec<u8> = Vec::new();
    alloy_rlp::Encodable::encode(&value, &mut item);
    item
}

/// Calls `<u64 as alloy_rlp::Encodable>::encode`. Claims that the item is
/// [`rlp_u64_item`] of the number, and that it is read back.
#[verifier::external_body]
fn u64_item(value: u64) -> (item: Vec<u8>)
    ensures
        item@ == rlp_u64_item(value),
        forall|rest: Seq<u8>| #[trigger] rlp_u64(item@ + rest) == Some((value, rest)),
{
    let mut item: Vec<u8> = Vec::new();
    alloy_rlp::Encodable::encode(&value, &mut item);
    item
}

/// Calls `<[u8] as alloy_rlp::Encodable>::encode`. Claims that the item is
/// [`rlp_string_item`] of the string, and that it is read back.
#[verifier::external_body]
fn string_item(value: &Vec<u8>) -> (item: Vec<u8>)
    ensures
        item@ == rlp_string_item(value@),
        forall|rest: Seq<u8>| #[trigger] rlp_string(item@ + rest) == Some((value@, rest)),
{
    let mut item: Vec<u8> = Vec::new();
    alloy_rlp::Encodable::encode(value.as_slice(), &mut item);
    item
}

/// Why bytes are not the expected list.
#[derive(Clone, Copy, Debug, PartialEq, Eq, Structural)]
pub enum RlpError {
    /// An item is malformed.
    InvalidItem,
    /// A string stands where the list was expected.
    UnexpectedString,
    /// The fields take `got` bytes of a list of `expected` bytes.
    ListLengthMismatch { expected: usize, got: usize },
    /// Bytes follow the list.
    UnexpectedLength,
}

/// The items of a list of 32-bit numbers.
pub open spec fn u32_items(payload: Seq<u8>) -> Option<Seq<u32>>
    decreases payload.len(),
{
    if payload.len() == 0 {
        Some(Seq::empty())
    } else {
        match rlp_u32(payload) {
            Some((value, rest)) if rest.len() < payload.len() => match u32_items(rest) {
                Some(values) => Some(seq![value] + values),
                None => None,
            },
            _ => None,
        }
    }
}

/// A list of 32-bit numbers at the front of `input`, and the bytes behind it.
pub open spec fn u32_list(input: Seq<u8>) -> Option<(Seq<u32>, Seq<u8>)> {
    match rlp_header(input) {
        Some((true, length, rest)) => match u32_items(rest.take(length as int)) {
            Some(values) => Some((values, rest.skip(length as int))),
            None => None,
        },
        _ => None,
    }
}

/// Closes a list of two fields: the second field is a string, the fields fill
/// the list, and nothing follows it.
pub open spec fn closed_list<T>(
    first: Option<(T, Seq<u8>)>,
    length: nat,
    fields: Seq<u8>,
) -> Result<(T, Seq<u8>), RlpError> {
    match first {
        None => Err(RlpError::InvalidItem),
        Some((value, behind)) => match rlp_string(behind) {
            None => Err(RlpError::InvalidItem),
            Some((payload, rest)) => if fields.len() - rest.len() != length {
                Err(
                    RlpError::ListLengthMismatch {
                        expected: length as usize,
                        got: (fields.len() - rest.len()) as usize,
                    },
                )
            } else if rest.len() > 0 {
                Err(RlpError::UnexpectedLength)
            } else {
                Ok((value, payload))
            },
        },
    }
}

/// A list of a 32-bit number and a string that fills `input`.
pub open spec fn u32_and_string(input: Seq<u8>) -> Result<(u32, Seq<u8>), RlpError> {
    match rlp_header(input) {
        None => Err(RlpError::InvalidItem),
        Some((list, length, fields)) => if !list {
            Err(RlpError::UnexpectedString)
        } else {
            closed_list(rlp_u32(fields), length, fields)
        },
    }
}

/// A list of a 64-bit number and a string that fills `input`.
pub open spec fn u64_and_string(input: Seq<u8>) -> Result<(u64, Seq<u8>), RlpError> {
    match rlp_header(input) {
        None => Err(RlpError::InvalidItem),
        Some((list, length, fields)) => if !list {
            Err(RlpError::UnexpectedString)
        } else {
            closed_list(rlp_u64(fields), length, fields)
        },
    }
}

/// A list of a list of 32-bit numbers and a string that fills `input`.
pub open spec fn u32s_and_string(input: Seq<u8>) -> Result<(Seq<u32>, Seq<u8>), RlpError> {
    match rlp_header(input) {
        None => Err(RlpError::InvalidItem),
        Some((list, length, fields)) => if !list {
            Err(RlpError::UnexpectedString)
        } else {
            closed_list(u32_list(fields), length, fields)
        },
    }
}

/// The list that holds `fields`.
pub open spec fn rlp_list(fields: Seq<u8>) -> Seq<u8> {
    rlp_list_header(fields.len()) + fields
}

/// The items of `values`, one behind the other.
pub open spec fn u32_items_bytes(values: Seq<u32>) -> Seq<u8>
    decreases values.len(),
{
    if values.len() == 0 {
        Seq::empty()
    } else {
        u32_items_bytes(values.drop_last()) + rlp_u32_item(values.last())
    }
}

/// Reads the rest of a two-field list behind its first field.
fn close_list(length: usize, total: usize, behind: &Vec<u8>) -> (result: Result<Vec<u8>, RlpError>)
    requires
        length <= total,
        behind@.len() <= total,
    ensures
        match rlp_string(behind@) {
            None => result == Err::<Vec<u8>, _>(RlpError::InvalidItem),
            Some((payload, rest)) => {
                &&& rest.len() <= total
                &&& if total - rest.len() != length {
                    result == Err::<Vec<u8>, _>(
                        RlpError::ListLengthMismatch {
                            expected: length,
                            got: (total - rest.len()) as usize,
                        },
                    )
                } else if rest.len() > 0 {
                    result == Err::<Vec<u8>, _>(RlpError::UnexpectedLength)
                } else {
                    result is Ok && result->Ok_0@ == payload
                }
            },
        },
{
    match take_string(behind) {
        None => Err(RlpError::InvalidItem),
        Some((payload, rest)) => {
            let got: usize = total - rest.len();
            if got != length {
                Err(RlpError::ListLengthMismatch { expected: length, got })
            } else if rest.len() > 0 {
                Err(RlpError::UnexpectedLength)
            } else {
                Ok(payload)
            }
        },
    }
}

/// Decodes a list of a 32-bit number and a string.
pub fn decode_u32_and_string(input: &Vec<u8>) -> (result: Result<(u32, Vec<u8>), RlpError>)
    ensures
        match u32_and_string(input@) {
            Ok((value, payload)) => result matches Ok(fields) && fields.0 == value && fields.1@ == payload,
            Err(error) => result == Err::<(u32, Vec<u8>), _>(error),
        },
{
    let (list, length, fields) = match take_header(input) {
        Some(header) => header,
        None => return Err(RlpError::InvalidItem),
    };
    if !list {
        return Err(RlpError::UnexpectedString);
    }
    let (value, behind) = match take_u32(&fields) {
        Some(item) => item,
        None => return Err(RlpError::InvalidItem),
    };
    match close_list(length, fields.len(), &behind) {
        Ok(payload) => Ok((value, payload)),
        Err(error) => Err(error),
    }
}

/// Decodes a list of a 64-bit number and a string.
pub fn decode_u64_and_string(input: &Vec<u8>) -> (result: Result<(u64, Vec<u8>), RlpError>)
    ensures
        match u64_and_string(input@) {
            Ok((value, payload)) => result matches Ok(fields) && fields.0 == value && fields.1@ == payload,
            Err(error) => result == Err::<(u64, Vec<u8>), _>(error),
        },
{
    let (list, length, fields) = match take_header(input) {
        Some(header) => header,
        None => return Err(RlpError::InvalidItem),
    };
    if !list {
        return Err(RlpError::UnexpectedString);
    }
    let (value, behind) = match take_u64(&fields) {
        Some(item) => item,
        None => return Err(RlpError::InvalidItem),
    };
    match close_list(length, fields.len(), &behind) {
        Ok(payload) => Ok((value, payload)),
        Err(error) => Err(error),
    }
}

/// Decodes the items of a list of 32-bit numbers.
fn decode_u32_items(payload: &Vec<u8>) -> (result: Option<Vec<u32>>)
    ensures
        match result {
            Some(values) => u32_items(payload@) == Some(values@),
            None => u32_items(payload@) is None,
        },
{
    let ghost whole = payload@;
    let mut values: Vec<u32> = Vec::new();
    let mut rest: Vec<u8> = copy_bytes(payload);
    proof {
        match u32_items(whole) {
            Some(items) => {
                assert(values@ + items =~= items);
            },
            None => {},
        }
    }
    while rest.len() > 0
        invariant
            whole == payload@,
            u32_items(whole) == (match u32_items(rest@) {
                Some(items) => Some(values@ + items),
                None => None,
            }),
        decreases rest@.len(),
    {
        match take_u32(&rest) {
            None => return None,
            Some((value, behind)) => {
                let ghost earlier = values@;
                values.push(value);
                proof {
                    match u32_items(behind@) {
                        Some(items) => {
                            assert(earlier + (seq![value] + items) =~= values@ + items);
                        },
                        None => {},
                    }
                }
                rest = behind;
            },
        }
    }
    assert(values@ + Seq::<u32>::empty() =~= values@);
    Some(values)
}

/// Decodes a list of a list of 32-bit numbers and a string.
pub fn decode_u32s_and_string(input: &Vec<u8>) -> (result: Result<(Vec<u32>, Vec<u8>), RlpError>)
    ensures
        match u32s_and_string(input@) {
            Ok((values, payload)) => result matches Ok(fields) && fields.0@ == values && fields.1@
                == payload,
            Err(error) => result == Err::<(Vec<u32>, Vec<u8>), _>(error),
        },
{
    let (list, length, fields) = match take_header(input) {
        Some(header) => header,
        None => return Err(RlpError::InvalidItem),
    };
    if !list {
        return Err(RlpError::UnexpectedString);
    }
    let (inner, inner_length, inner_rest) = match take_header(&fields) {
        Some(header) => header,
        None => return Err(RlpError::InvalidItem),
    };
    if !inner {
        return Err(RlpError::InvalidItem);
    }
    let items: Vec<u8> = copy_range(&inner_rest, 0, inner_length);
    assert(items@ =~= inner_rest@.take(inner_length as int));
    let values: Vec<u32> = match decode_u32_items(&items) {
        Some(values) => values,
        None => return Err(RlpError::InvalidItem),
    };
    let behind: Vec<u8> = copy_range(&inner_rest, inner_length, inner_rest.len());
    assert(behind@ =~= inner_rest@.skip(inner_length as int));
    match close_list(length, fields.len(), &behind) {
        Ok(payload) => Ok((values, payload)),
        Err(error) => Err(error),
    }
}

/// Encodes a list around `fields`.
fn encode_list(fields: &Vec<u8>) -> (list: Vec<u8>)
    ensures
        list@ == rlp_list(fields@),
        forall|rest: Seq<u8>| #[trigger]
            rlp_header(list@ + rest) == Some((true, fields@.len(), fields@ + rest)),
        rlp_header(list@) == Some((true, fields@.len(), fields@)),
{
    let mut list: Vec<u8> = list_header(fields.len());
    let ghost header = list@;
    append_bytes(&mut list, fields);
    proof {
        assert forall|rest: Seq<u8>| #[trigger] rlp_header(list@ + rest) == Some(
            (true, fields@.len(), fields@ + rest),
        ) by {
            assert(list@ + rest =~= header + (fields@ + rest));
        }
        assert(list@ + Seq::<u8>::empty() =~= list@);
        assert(fields@ + Seq::<u8>::empty() =~= fields@);
        assert(rlp_header(list@ + Seq::<u8>::empty()) is Some);
    }
    list
}

/// Encodes a list of a 32-bit number and a string; it is read back.
pub fn encode_u32_and_string(value: u32, payload: &Vec<u8>) -> (list: Vec<u8>)
    ensures
        list@ == rlp_list(rlp_u32_item(value) + rlp_string_item(payload@)),
        u32_and_string(list@) == Ok::<(u32, Seq<u8>), RlpError>((value, payload@)),
{
    let mut fields: Vec<u8> = u32_item(value);
    let string: Vec<u8> = string_item(payload);
    let ghost first = fields@;
    append_bytes(&mut fields, &string);
    proof {
        assert(rlp_u32(first + string@) == Some((value, string@)));
        assert(string@ + Seq::<u8>::empty() =~= string@);
        assert(rlp_string(string@ + Seq::<u8>::empty()) == Some((payload@, Seq::<u8>::empty())));
    }
    encode_list(&fields)
}

/// Encodes a list of a 64-bit number and a string; it is read back.
pub fn encode_u64_and_string(value: u64, payload: &Vec<u8>) -> (list: Vec<u8>)
    ensures
        list@ == rlp_list(rlp_u64_item(value) + rlp_string_item(payload@)),
        u64_and_string(list@) == Ok::<(u64, Seq<u8>), RlpError>((value, payload@)),
{
    let mut fields: Vec<u8> = u64_item(value);
    let string: Vec<u8> = string_item(payload);
    let ghost first = fields@;
    append_bytes(&mut fields, &string);
    proof {
        assert(rlp_u64(first + string@) == Some((value, string@)));
        assert(string@ + Seq::<u8>::empty() =~= string@);
        assert(rlp_string(string@ + Seq::<u8>::empty()) == Some((payload@, Seq::<u8>::empty())));
    }
    encode_list(&fields)
}

/// Encodes the items of `values`; they are read back.
fn encode_u32_items(values: &Vec<u32>) -> (items: Vec<u8>)
    ensures
        items@ == u32_items_bytes(values@),
        u32_items(items@) == Some(values@),
{
    let mut items: Vec<u8> = Vec::new();
    let mut i: usize = 0;
    proof {
        assert forall|rest: Seq<u8>| #[trigger] u32_items(items@ + rest) == (match u32_items(rest) {
            Some(more) => Some(values@.take(0) + more),
            None => None,
        }) by {
            assert(items@ + rest =~= rest);
            match u32_items(rest) {
                Some(more) => {
                    assert(values@.take(0) + more =~= more);
                },
                None => {},
            }
        }
        assert(values@.take(0) =~= Seq::<u32>::empty());
    }
    while i < values.len()
        invariant
            i <= values@.len(),
            items@ == u32_items_bytes(values@.take(i as int)),
            forall|rest: Seq<u8>| #[trigger]
                u32_items(items@ + rest) == (match u32_items(rest) {
                    Some(more) => Some(values@.take(i as int) + more),
                    None => None,
                }),
        decreases values@.len() - i,
    {
        let value: u32 = values[i];
        let item: Vec<u8> = u32_item(value);
        let ghost earlier = items@;
        append_bytes(&mut items, &item);
        proof {
            let done = values@.take(i as int);
            let next = values@.take(i + 1);
            assert(next.drop_last() =~= done);
            assert(next =~= done.push(value));
            assert forall|rest: Seq<u8>| #[trigger] u32_items(items@ + rest) == (match u32_items(rest) {
                Some(more) => Some(next + more),
                None => None,
            }) by {
                assert(items@ + rest =~= earlier + (item@ + rest));
                assert(rlp_u32(item@ + rest) == Some((value, rest)));
                assert(u32_items(earlier + (item@ + rest)) == (match u32_items(item@ + rest) {
                    Some(more) => Some(done + more),
                    None => None,
                }));
                match u32_items(rest) {
                    Some(more) => {
                        assert(done + (seq![value] + more) =~= next + more);
                    },
                    None => {},
                }
            }
        }
        i += 1;
    }
    proof {
        assert(values@.take(values@.len() as int) =~= values@);
        assert(items@ + Seq::<u8>::empty() =~= items@);
        assert(u32_items(Seq::<u8>::empty()) == Some(Seq::<u32>::empty()));
        assert(u32_items(items@ + Seq::<u8>::empty()) == Some(values@ + Seq::<u32>::empty()));
        assert(values@ + Seq::<u32>::empty() =~= values@);
    }
    items
}

/// Encodes a list of a list of 32-bit numbers and a string; it is read back.
pub fn encode_u32s_and_string(values: &Vec<u32>, payload: &Vec<u8>) -> (list: Vec<u8>)
    ensures
        list@ == rlp_list(rlp_list(u32_items_bytes(values@)) + rlp_string_item(payload@)),
        u32s_and_string(list@) == Ok::<(Seq<u32>, Seq<u8>), RlpError>((values@, payload@)),
{
    let items: Vec<u8> = encode_u32_items(values);
    let mut fields: Vec<u8> = encode_list(&items);
    let string: Vec<u8> = string_item(payload);
    let ghost first = fields@;
    append_bytes(&mut fields, &string);
    proof {
        let rest = items@ + string@;
        assert(rlp_header(first + string@) == Some((true, items@.len(), rest)));
        assert(rest.take(items@.len() as int) =~= items@);
        assert(rest.skip(items@.len() as int) =~= string@);
        assert(string@ + Seq::<u8>::empty() =~= string@);
        assert(rlp_string(string@ + Seq::<u8>::empty()) == Some((payload@, Seq::<u8>::empty())));
    }
    encode_list(&fields)
}

/// A list of two fields is read exactly where both fields can be read, nothing
/// follows them, and they are as long as the list says.
pub proof fn law_list_is_closed_by_its_length<T>(
    first: Option<(T, Seq<u8>)>,
    length: nat,
    fields: Seq<u8>,
)
    ensures
        closed_list(first, length, fields) is Ok <==> first is Some && rlp_string(
            first->Some_0.1,
        ) is Some && rlp_string(first->Some_0.1)->Some_0.1.len() == 0 && fields.len() == length,
        closed_list(first, length, fields) matches Ok((value, payload)) ==> value == first->Some_0.0
            && payload == rlp_string(first->Some_0.1)->Some_0.0,
{
}

/// Bytes that are no list are no list of two fields.
pub proof fn law_string_is_no_list(input: Seq<u8>)
    requires
        rlp_header(input) is None || !rlp_header(input)->Some_0.0,
    ensures
        u32_and_string(input) is Err,
        u64_and_string(input) is Err,
        u32s_and_string(input) is Err,
{
}

/// The bytes of a number, the highest first, stand for it and start with no zero.
pub proof fn law_big_endian_is_minimal(value: nat)
    ensures
        value > 0 ==> big_endian(value).len() > 0 && big_endian(value)[0] != 0,
        value == 0 ==> big_endian(value).len() == 0,
        value > 0 ==> value == 256 * (value / 256) + big_endian(value).last(),
        value > 0 ==> big_endian(value).drop_last() == big_endian(value / 256),
    decreases value,
{
    if value > 0 {
        law_big_endian_is_minimal(value / 256);
        assert(big_endian(value).drop_last() =~= big_endian(value / 256));
    }
}

} // verus!

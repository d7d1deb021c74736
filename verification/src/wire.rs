//! The wire format, as functions from bytes to values.
//!
//! Each function takes the bytes that remain and says what one decode step
//! yields: the value and the number of bytes it occupies, or the fault that
//! the step reports. Lengths that the peer declares are held against the
//! bytes that are there before anything is read.

use vstd::prelude::*;
use vstd::utf8::{decode_utf8, encode_utf8, valid_utf8};
use crate::conversions::{be_i32, i32_be};
use crate::decimal::decimal;
use crate::errors::{malformed, Fault};
use crate::model::{put, well_formed, Value};

verus! {

/// What decoding one value yields.
pub type Decoded = Result<(Value, nat), Fault>;

/// The fault for text that is not UTF-8.
pub open spec fn invalid_text() -> Fault {
    malformed("Parsed invalid utf8 string")
}

/// A one-byte length, read as signed.
pub open spec fn short_size(b: u8) -> int {
    if b >= 0x80 {
        b as int - 0x100
    } else {
        b as int
    }
}

/// `b` without its first `n` bytes.
pub open spec fn rest(b: Seq<u8>, n: nat) -> Seq<u8> {
    if n <= b.len() {
        b.skip(n as int)
    } else {
        Seq::empty()
    }
}

/// A result whose count of bytes is moved on by the `by` bytes that came
/// before it.
pub open spec fn shifted<T>(r: Result<(T, nat), Fault>, by: nat) -> Result<(T, nat), Fault> {
    match r {
        Ok((all, n)) => Ok((all, by + n)),
        Err(e) => Err(e),
    }
}

/// A char: one raw byte.
pub open spec fn character(b: Seq<u8>) -> Decoded {
    if b.len() < 1 {
        Err(malformed("Not enough bytes to parse character"))
    } else {
        Ok((Value::Chr(b[0] as char), 1))
    }
}

/// An int: four bytes, big-endian and signed.
pub open spec fn integer(b: Seq<u8>) -> Decoded {
    if b.len() < 4 {
        Err(malformed("Not enough bytes to parse int"))
    } else {
        Ok((Value::Int(be_i32(b)), 4))
    }
}

/// The bytes behind a one-byte signed length. The faults are those for no
/// byte to hold the length, for a length below zero, and for a length
/// beyond the bytes that are there.
pub open spec fn short_payload(b: Seq<u8>, few: &str, negative: &str, large: &str) -> Result<
    Seq<u8>,
    Fault,
> {
    if b.len() < 1 {
        Err(malformed(few))
    } else if short_size(b[0]) < 0 {
        Err(malformed(negative))
    } else if b.len() < 1 + short_size(b[0]) {
        Err(malformed(large))
    } else {
        Ok(b.subrange(1, 1 + short_size(b[0])))
    }
}

/// The bytes behind a four-byte signed length, or `None` where the length is
/// -1. The faults are those for too few bytes to hold a length, for a length
/// below -1, and for a length beyond the bytes that are there.
pub open spec fn wide_payload(b: Seq<u8>, few: &str, negative: &str, large: &str) -> Result<
    Option<Seq<u8>>,
    Fault,
> {
    if b.len() < 4 {
        Err(malformed(few))
    } else if be_i32(b) == -1 {
        Ok(None)
    } else if be_i32(b) < 0 {
        Err(malformed(negative))
    } else if b.len() < 4 + be_i32(b) {
        Err(malformed(large))
    } else {
        Ok(Some(b.subrange(4, 4 + be_i32(b))))
    }
}

/// A long: a one-byte length, then that many bytes of decimal text.
pub open spec fn long(b: Seq<u8>) -> Decoded {
    match short_payload(
        b,
        "Not enough bytes to parse long",
        "Long has a negative size",
        "Long larger then available bytes",
    ) {
        Err(e) => Err(e),
        Ok(text) => if !valid_utf8(text) {
            Err(invalid_text())
        } else {
            match decimal(text, i64::MIN as int, i64::MAX as int) {
                Some(v) => Ok((Value::Lon(v), 1 + text.len())),
                None => Err(malformed("String to long conversion failed")),
            }
        },
    }
}

/// A time: framed as a long, and read as signed 32-bit seconds.
pub open spec fn time(b: Seq<u8>) -> Decoded {
    match short_payload(
        b,
        "Not enough bytes parse time",
        "Time has a negative size",
        "Not enough bytes to parse time",
    ) {
        Err(e) => Err(e),
        Ok(text) => if !valid_utf8(text) {
            Err(invalid_text())
        } else {
            match decimal(text, i32::MIN as int, i32::MAX as int) {
                Some(v) => Ok((Value::Tim(v), 1 + text.len())),
                None => Err(malformed("String to i32 conversion failed")),
            }
        },
    }
}

/// The one payload that stands for the null pointer: the digit zero.
pub open spec fn null_pointer() -> Seq<u8> {
    seq![0x30u8]
}

/// A pointer: a one-byte length, then that many bytes of text. The text `0`
/// alone is the null pointer.
pub open spec fn pointer(b: Seq<u8>) -> Decoded {
    match short_payload(
        b,
        "Not enough bytes to parse pointer",
        "Pointer has a negative size",
        "Pointer larger then availiable bytes",
    ) {
        Err(e) => Err(e),
        Ok(text) => if !valid_utf8(text) {
            Err(invalid_text())
        } else if text == null_pointer() {
            Ok((Value::Ptr(None), 1 + text.len()))
        } else {
            Ok((Value::Ptr(Some(decode_utf8(text))), 1 + text.len()))
        },
    }
}

/// The bytes of a string: a four-byte signed length, then that many bytes
/// of UTF-8. Length -1 is the null string; length 0 is the empty one.
pub open spec fn text(b: Seq<u8>) -> Result<(Option<Seq<u8>>, nat), Fault> {
    match wide_payload(
        b,
        "Not enough bytes to parse string",
        "String has a negative size",
        "String larger then availiable bytes",
    ) {
        Err(e) => Err(e),
        Ok(None) => Ok((None, 4)),
        Ok(Some(text)) => if valid_utf8(text) {
            Ok((Some(text), 4 + text.len()))
        } else {
            Err(invalid_text())
        },
    }
}

/// A string, as the text that its bytes spell.
pub open spec fn string(b: Seq<u8>) -> Decoded {
    match text(b) {
        Err(e) => Err(e),
        Ok((None, n)) => Ok((Value::Str(None), n)),
        Ok((Some(text), n)) => Ok((Value::Str(Some(decode_utf8(text))), n)),
    }
}

/// A buffer: framed as a string, and kept as raw bytes.
pub open spec fn buffer(b: Seq<u8>) -> Decoded {
    match wide_payload(
        b,
        "Not enough bytes to parse buffer",
        "Buffer has a negative size",
        "Buffer larger then availiable bytes",
    ) {
        Err(e) => Err(e),
        Ok(None) => Ok((Value::Buf(None), 4)),
        Ok(Some(bytes)) => Ok((Value::Buf(Some(bytes)), 4 + bytes.len())),
    }
}

/// The three bytes that name each kind of value.
pub open spec fn tag_chr() -> Seq<u8> {
    seq![0x63u8, 0x68u8, 0x72u8]
}

pub open spec fn tag_int() -> Seq<u8> {
    seq![0x69u8, 0x6eu8, 0x74u8]
}

pub open spec fn tag_lon() -> Seq<u8> {
    seq![0x6cu8, 0x6fu8, 0x6eu8]
}

pub open spec fn tag_str() -> Seq<u8> {
    seq![0x73u8, 0x74u8, 0x72u8]
}

pub open spec fn tag_buf() -> Seq<u8> {
    seq![0x62u8, 0x75u8, 0x66u8]
}

pub open spec fn tag_ptr() -> Seq<u8> {
    seq![0x70u8, 0x74u8, 0x72u8]
}

pub open spec fn tag_tim() -> Seq<u8> {
    seq![0x74u8, 0x69u8, 0x6du8]
}

pub open spec fn tag_arr() -> Seq<u8> {
    seq![0x61u8, 0x72u8, 0x72u8]
}

pub open spec fn tag_htb() -> Seq<u8> {
    seq![0x68u8, 0x74u8, 0x62u8]
}

pub open spec fn tag_hda() -> Seq<u8> {
    seq![0x68u8, 0x64u8, 0x61u8]
}

/// One value of the kind that `tag` names.
pub open spec fn object(tag: Seq<u8>, b: Seq<u8>) -> Decoded
    decreases b.len(), 1int, 0int,
{
    if tag == tag_chr() {
        character(b)
    } else if tag == tag_int() {
        integer(b)
    } else if tag == tag_lon() {
        long(b)
    } else if tag == tag_str() {
        string(b)
    } else if tag == tag_buf() {
        buffer(b)
    } else if tag == tag_ptr() {
        pointer(b)
    } else if tag == tag_tim() {
        time(b)
    } else if tag == tag_arr() {
        array(b)
    } else if tag == tag_htb() {
        hashtable(b)
    } else {
        Err(malformed("Unknown data type"))
    }
}

/// An array: the tag of its elements, a four-byte count, then the elements.
/// A count of zero or less is the empty array.
pub open spec fn array(b: Seq<u8>) -> Decoded
    decreases b.len(), 0int, 0int,
{
    if b.len() < 7 {
        Err(malformed("Not enough bytes to have an array"))
    } else if !valid_utf8(b.subrange(0, 3)) {
        Err(invalid_text())
    } else {
        array_of(items(b.subrange(0, 3), b.skip(7), be_i32(b.skip(3)), Seq::empty()))
    }
}

/// The array that its elements make, with the seven bytes of its header.
pub open spec fn array_of(elements: Result<(Seq<Value>, nat), Fault>) -> Decoded {
    match elements {
        Ok((elements, n)) => Ok((Value::Arr(elements), 7 + n)),
        Err(e) => Err(e),
    }
}

/// `count` values of the kind that `tag` names, one after the other, added
/// to those in `done`.
pub open spec fn items(tag: Seq<u8>, b: Seq<u8>, count: int, done: Seq<Value>) -> Result<
    (Seq<Value>, nat),
    Fault,
>
    decreases b.len(), 3int, count,
{
    if count <= 0 {
        Ok((done, 0))
    } else {
        match object(tag, b) {
            Err(e) => Err(e),
            Ok((v, n)) => shifted(items(tag, rest(b, n), count - 1, done.push(v)), n),
        }
    }
}

/// A hashtable: the tag of its keys, the tag of its values, a four-byte
/// count, then the entries, key before value. A key that comes again gives
/// its entry a new value.
pub open spec fn hashtable(b: Seq<u8>) -> Decoded
    decreases b.len(), 0int, 0int,
{
    if b.len() < 10 {
        Err(malformed("Not enough bytes to have a hashtable"))
    } else if !valid_utf8(b.subrange(0, 3)) || !valid_utf8(b.subrange(3, 6)) {
        Err(invalid_text())
    } else {
        hashtable_of(
            entries(b.subrange(0, 3), b.subrange(3, 6), b.skip(10), be_i32(b.skip(6)), Seq::empty()),
        )
    }
}

/// The hashtable that its entries make, with the ten bytes of its header.
pub open spec fn hashtable_of(table: Result<(Seq<(Value, Value)>, nat), Fault>) -> Decoded {
    match table {
        Ok((table, n)) => Ok((Value::Htb(table), 10 + n)),
        Err(e) => Err(e),
    }
}

/// One entry of a hashtable: a key of the kind `key_tag`, then a value of
/// the kind `value_tag`.
pub open spec fn entry(key_tag: Seq<u8>, value_tag: Seq<u8>, b: Seq<u8>) -> Result<
    ((Value, Value), nat),
    Fault,
>
    decreases b.len(), 2int, 0int,
{
    match object(key_tag, b) {
        Err(e) => Err(e),
        Ok((k, n)) => match object(value_tag, rest(b, n)) {
            Err(e) => Err(e),
            Ok((v, m)) => Ok(((k, v), n + m)),
        },
    }
}

/// `count` entries with keys of the kind `key_tag` and values of the kind
/// `value_tag`, put one after the other into the table `done`.
pub open spec fn entries(
    key_tag: Seq<u8>,
    value_tag: Seq<u8>,
    b: Seq<u8>,
    count: int,
    done: Seq<(Value, Value)>,
) -> Result<(Seq<(Value, Value)>, nat), Fault>
    decreases b.len(), 3int, count,
{
    if count <= 0 {
        Ok((done, 0))
    } else {
        match entry(key_tag, value_tag, b) {
            Err(e) => Err(e),
            Ok(((k, v), n)) => shifted(
                entries(key_tag, value_tag, rest(b, n), count - 1, put(done, k, v)),
                n,
            ),
        }
    }
}

/// A value never occupies more bytes than there are, nor none, and every
/// table in it has distinct keys.
pub proof fn lemma_object_fits(tag: Seq<u8>, b: Seq<u8>)
    ensures
        object(tag, b) matches Ok((v, n)) ==> 1 <= n <= b.len() && well_formed(v),
    decreases b.len(), 1int, 0int,
{
    if tag == tag_arr() {
        lemma_array_fits(b);
    } else if tag == tag_htb() {
        lemma_hashtable_fits(b);
    }
}

/// What `items` comes to once the element at the front is decoded: that
/// element's fault, or what the elements behind it come to.
pub proof fn lemma_items_step(tag: Seq<u8>, b: Seq<u8>, at: nat, count: int, done: Seq<Value>)
    requires
        at <= b.len(),
        count > 0,
    ensures
        match object(tag, b.skip(at as int)) {
            Err(e) => items(tag, b.skip(at as int), count, done) == Err::<(Seq<Value>, nat), Fault>(
                e,
            ),
            Ok((v, n)) => at + n <= b.len() && shifted(
                items(tag, b.skip(at as int), count, done),
                at,
            ) == shifted(items(tag, b.skip((at + n) as int), count - 1, done.push(v)), at + n),
        },
{
    lemma_object_fits(tag, b.skip(at as int));
    if let Ok((v, n)) = object(tag, b.skip(at as int)) {
        assert(rest(b.skip(at as int), n) =~= b.skip((at + n) as int));
    }
}

/// What `entries` comes to once the entry at the front is decoded: that
/// entry's fault, or what the entries behind it come to.
pub proof fn lemma_entries_step(
    key_tag: Seq<u8>,
    value_tag: Seq<u8>,
    b: Seq<u8>,
    at: nat,
    count: int,
    done: Seq<(Value, Value)>,
)
    requires
        at <= b.len(),
        count > 0,
    ensures
        match entry(key_tag, value_tag, b.skip(at as int)) {
            Err(e) => entries(key_tag, value_tag, b.skip(at as int), count, done) == Err::<
                (Seq<(Value, Value)>, nat),
                Fault,
            >(e),
            Ok(((k, v), n)) => at + n <= b.len() && shifted(
                entries(key_tag, value_tag, b.skip(at as int), count, done),
                at,
            ) == shifted(
                entries(key_tag, value_tag, b.skip((at + n) as int), count - 1, put(done, k, v)),
                at + n,
            ),
        },
{
    lemma_entry_fits(key_tag, value_tag, b.skip(at as int));
    if let Ok(((k, v), n)) = entry(key_tag, value_tag, b.skip(at as int)) {
        assert(rest(b.skip(at as int), n) =~= b.skip((at + n) as int));
    }
}

/// A value ends within the bytes that there are.
pub proof fn lemma_object_ends(tag: Seq<u8>, b: Seq<u8>)
    ensures
        object(tag, b) matches Ok((v, n)) ==> 1 <= n <= b.len(),
{
    lemma_object_fits(tag, b);
}

/// An array occupies its header and its elements, and no more than there is.
pub proof fn lemma_array_fits(b: Seq<u8>)
    ensures
        array(b) matches Ok((v, n)) ==> 7 <= n <= b.len() && well_formed(v),
    decreases b.len(), 0int, 0int,
{
    if b.len() >= 7 {
        lemma_items_fit(b.subrange(0, 3), b.skip(7), be_i32(b.skip(3)), Seq::empty());
    }
}

/// The elements of an array occupy no more bytes than there are.
pub proof fn lemma_items_fit(tag: Seq<u8>, b: Seq<u8>, count: int, done: Seq<Value>)
    requires
        forall|i: int| #![trigger done[i]] 0 <= i < done.len() ==> well_formed(done[i]),
    ensures
        items(tag, b, count, done) matches Ok((all, n)) ==> {
            &&& n <= b.len()
            &&& all.len() == done.len() + if count > 0 {
                count
            } else {
                0
            }
            &&& forall|i: int| #![trigger all[i]] 0 <= i < all.len() ==> well_formed(all[i])
        },
    decreases b.len(), 3int, count,
{
    if count > 0 {
        lemma_object_fits(tag, b);
        if let Ok((v, n)) = object(tag, b) {
            let grown = done.push(v);
            assert forall|i: int| #![trigger grown[i]] 0 <= i < grown.len() implies well_formed(
                grown[i],
            ) by {
                if i < done.len() {
                    assert(well_formed(done[i]));
                }
            }
            lemma_items_fit(tag, rest(b, n), count - 1, grown);
        }
    }
}

/// A hashtable occupies its header and its entries, and no more than there is.
pub proof fn lemma_hashtable_fits(b: Seq<u8>)
    ensures
        hashtable(b) matches Ok((v, n)) ==> 10 <= n <= b.len() && well_formed(v),
    decreases b.len(), 0int, 0int,
{
    if b.len() >= 10 {
        lemma_entries_fit(
            b.subrange(0, 3),
            b.subrange(3, 6),
            b.skip(10),
            be_i32(b.skip(6)),
            Seq::empty(),
        );
    }
}

/// An entry occupies no more bytes than there are, nor none.
pub proof fn lemma_entry_fits(key_tag: Seq<u8>, value_tag: Seq<u8>, b: Seq<u8>)
    ensures
        entry(key_tag, value_tag, b) matches Ok(((k, v), n)) ==> 2 <= n <= b.len() && well_formed(k)
            && well_formed(v),
    decreases b.len(), 2int, 0int,
{
    lemma_object_fits(key_tag, b);
    if let Ok((k, n)) = object(key_tag, b) {
        lemma_object_fits(value_tag, rest(b, n));
    }
}

/// The entries of a hashtable occupy no more bytes than there are, and leave
/// the table with distinct keys.
pub proof fn lemma_entries_fit(
    key_tag: Seq<u8>,
    value_tag: Seq<u8>,
    b: Seq<u8>,
    count: int,
    done: Seq<(Value, Value)>,
)
    requires
        well_formed(Value::Htb(done)),
    ensures
        entries(key_tag, value_tag, b, count, done) matches Ok((all, n)) ==> n <= b.len()
            && well_formed(Value::Htb(all)),
    decreases b.len(), 3int, count,
{
    if count > 0 {
        lemma_entry_fits(key_tag, value_tag, b);
        if let Ok(((k, v), n)) = entry(key_tag, value_tag, b) {
            crate::model::lemma_put_well_formed(done, k, v);
            lemma_entries_fit(key_tag, value_tag, rest(b, n), count - 1, put(done, k, v));
        }
    }
}

/// Whether a result, where it is a fault, is a fault of decoding.
pub open spec fn fails_as_parse<T>(r: Result<T, Fault>) -> bool {
    r matches Err(e) ==> e is Parse
}

/// Decoding a value fails with a parse error or not at all.
pub proof fn lemma_object_fault(tag: Seq<u8>, b: Seq<u8>)
    ensures
        fails_as_parse(object(tag, b)),
    decreases b.len(), 1int, 0int,
{
    if tag == tag_arr() {
        lemma_array_fault(b);
    } else if tag == tag_htb() {
        lemma_hashtable_fault(b);
    }
}

/// Decoding an array fails with a parse error or not at all.
pub proof fn lemma_array_fault(b: Seq<u8>)
    ensures
        fails_as_parse(array(b)),
    decreases b.len(), 0int, 0int,
{
    if b.len() >= 7 {
        lemma_items_fault(b.subrange(0, 3), b.skip(7), be_i32(b.skip(3)), Seq::empty());
    }
}

/// Decoding the elements of an array fails with a parse error or not at all.
pub proof fn lemma_items_fault(tag: Seq<u8>, b: Seq<u8>, count: int, done: Seq<Value>)
    ensures
        fails_as_parse(items(tag, b, count, done)),
    decreases b.len(), 3int, count,
{
    if count > 0 {
        lemma_object_fault(tag, b);
        if let Ok((v, n)) = object(tag, b) {
            lemma_items_fault(tag, rest(b, n), count - 1, done.push(v));
        }
    }
}

/// Decoding a hashtable fails with a parse error or not at all.
pub proof fn lemma_hashtable_fault(b: Seq<u8>)
    ensures
        fails_as_parse(hashtable(b)),
    decreases b.len(), 0int, 0int,
{
    if b.len() >= 10 {
        lemma_entries_fault(
            b.subrange(0, 3),
            b.subrange(3, 6),
            b.skip(10),
            be_i32(b.skip(6)),
            Seq::empty(),
        );
    }
}

/// Decoding an entry of a hashtable fails with a parse error or not at all.
pub proof fn lemma_entry_fault(key_tag: Seq<u8>, value_tag: Seq<u8>, b: Seq<u8>)
    ensures
        fails_as_parse(entry(key_tag, value_tag, b)),
    decreases b.len(), 2int, 0int,
{
    lemma_object_fault(key_tag, b);
    if let Ok((k, n)) = object(key_tag, b) {
        lemma_object_fault(value_tag, rest(b, n));
    }
}

/// Decoding the entries of a hashtable fails with a parse error or not at all.
pub proof fn lemma_entries_fault(
    key_tag: Seq<u8>,
    value_tag: Seq<u8>,
    b: Seq<u8>,
    count: int,
    done: Seq<(Value, Value)>,
)
    ensures
        fails_as_parse(entries(key_tag, value_tag, b, count, done)),
    decreases b.len(), 3int, count,
{
    if count > 0 {
        lemma_entry_fault(key_tag, value_tag, b);
        if let Ok(((k, v), n)) = entry(key_tag, value_tag, b) {
            lemma_entries_fault(key_tag, value_tag, rest(b, n), count - 1, put(done, k, v));
        }
    }
}

/// A string comes back from the bytes that encode it: its length in four
/// bytes and its text in UTF-8, whatever follows them.
pub proof fn string_round_trip(text: Seq<char>, rest: Seq<u8>)
    requires
        encode_utf8(text).len() <= i32::MAX,
    ensures
        string(i32_be(encode_utf8(text).len() as int) + encode_utf8(text) + rest) == Ok::<
            (Value, nat),
            Fault,
        >((Value::Str(Some(text)), 4 + encode_utf8(text).len())),
{
    let payload = encode_utf8(text);
    let b = i32_be(payload.len() as int) + payload + rest;
    crate::conversions::be_i32_inverts_i32_be(payload.len() as int, payload + rest);
    assert(b =~= i32_be(payload.len() as int) + (payload + rest));
    assert(b.subrange(4, 4 + payload.len() as int) =~= payload);
    vstd::utf8::encode_utf8_valid_utf8(text);
    vstd::utf8::encode_utf8_decode_utf8(text);
}

/// The length -1 is the null string, which takes up its four bytes and no
/// more, whatever follows them.
pub proof fn null_string(rest: Seq<u8>)
    ensures
        string(i32_be(-1) + rest) == Ok::<(Value, nat), Fault>((Value::Str(None), 4)),
{
    crate::conversions::be_i32_inverts_i32_be(-1, rest);
}

/// The bytes of a pointer with the text `text`: its length in one byte and
/// the text in UTF-8.
pub open spec fn pointer_bytes(text: Seq<char>) -> Seq<u8> {
    seq![encode_utf8(text).len() as u8] + encode_utf8(text)
}

/// A pointer comes back from the bytes that encode it, whatever follows
/// them: as null where its text is `0`, and else as its text.
pub proof fn pointer_round_trip(text: Seq<char>, rest: Seq<u8>)
    requires
        encode_utf8(text).len() <= i8::MAX,
    ensures
        pointer(pointer_bytes(text) + rest) == Ok::<(Value, nat), Fault>(
            (
                if text == seq!['0'] {
                    Value::Ptr(None)
                } else {
                    Value::Ptr(Some(text))
                },
                1 + encode_utf8(text).len(),
            ),
        ),
{
    let payload = encode_utf8(text);
    let b = pointer_bytes(text) + rest;
    assert(b[0] == payload.len() as u8);
    assert(b.subrange(1, 1 + payload.len() as int) =~= payload);
    vstd::utf8::encode_utf8_valid_utf8(text);
    vstd::utf8::encode_utf8_decode_utf8(text);
    let zero = seq!['0'];
    assert(vstd::utf8::is_ascii_chars(zero));
    vstd::utf8::is_ascii_chars_encode_utf8(zero);
    assert(encode_utf8(zero) =~= null_pointer());
    if payload == null_pointer() {
        crate::text::lemma_encoding_is_injective(text, zero);
    }
}

/// A string or a buffer that declares more bytes than follow its length is
/// rejected with a parse error.
pub proof fn overlong_is_rejected(b: Seq<u8>)
    requires
        b.len() >= 4,
        be_i32(b) > b.len() - 4,
    ensures
        string(b) matches Err(e) && e is Parse,
        buffer(b) matches Err(e) && e is Parse,
{
}

/// Whether `b` and `c` both have `n` bytes or more, and the same first `n`.
pub open spec fn agree(b: Seq<u8>, c: Seq<u8>, n: nat) -> bool {
    &&& n <= b.len()
    &&& n <= c.len()
    &&& forall|k: int| 0 <= k < n ==> b[k] == c[k]
}

/// Byte strings that agree on some bytes agree on fewer, and what is left
/// of them after some of those bytes agrees on the rest.
proof fn lemma_agree_rest(b: Seq<u8>, c: Seq<u8>, n: nat, m: nat)
    requires
        agree(b, c, n),
        m <= n,
    ensures
        agree(b, c, m),
        agree(rest(b, m), rest(c, m), (n - m) as nat),
        agree(b.skip(m as int), c.skip(m as int), (n - m) as nat),
        b.subrange(0, m as int) == c.subrange(0, m as int),
{
    assert forall|k: int| 0 <= k < n - m implies b.skip(m as int)[k] == c.skip(m as int)[k] by {
        assert(b[k + m] == c[k + m]);
    }
    assert(b.subrange(0, m as int) =~= c.subrange(0, m as int));
}

/// A value is decoded from the bytes that it takes up and from no others:
/// whatever follows them, the same value comes of it.
pub proof fn decoding_reads_what_it_takes(tag: Seq<u8>, b: Seq<u8>, c: Seq<u8>)
    requires
        object(tag, b) matches Ok((v, n)) && agree(b, c, n),
    ensures
        object(tag, c) == object(tag, b),
    decreases b.len(), 1int, 0int,
{
    let n = object(tag, b)->Ok_0.1;
    if tag == tag_chr() {
    } else if tag == tag_int() {
    } else if tag == tag_lon() || tag == tag_ptr() || tag == tag_tim() {
        let size = short_size(b[0]);
        assert(b[0] == c[0]);
        if 0 <= size && 1 + size <= b.len() {
            let x = b.subrange(1, 1 + size);
            let y = c.subrange(1, 1 + size);
            assert(x =~= y) by {
                assert forall|k: int| 0 <= k < size implies #[trigger] x[k] == y[k] by {
                    assert(b[k + 1] == c[k + 1]);
                }
            }
        }
    } else if tag == tag_str() || tag == tag_buf() {
        let size = be_i32(b);
        assert(be_i32(c) == size);
        if size >= 0 {
            let x = b.subrange(4, 4 + size);
            let y = c.subrange(4, 4 + size);
            assert(x =~= y) by {
                assert forall|k: int| 0 <= k < size implies #[trigger] x[k] == y[k] by {
                    assert(b[k + 4] == c[k + 4]);
                }
            }
        }
    } else if tag == tag_arr() {
        lemma_agree_rest(b, c, n, 7);
        lemma_agree_rest(b, c, n, 3);
        assert(be_i32(b.skip(3)) == be_i32(c.skip(3))) by {
            assert(b[3] == c[3] && b[4] == c[4] && b[5] == c[5] && b[6] == c[6]);
        }
        lemma_items_read_what_they_take(
            b.subrange(0, 3),
            b.skip(7),
            c.skip(7),
            be_i32(b.skip(3)),
            Seq::empty(),
        );
    } else if tag == tag_htb() {
        lemma_agree_rest(b, c, n, 10);
        lemma_agree_rest(b, c, n, 6);
        lemma_agree_rest(b, c, n, 3);
        assert(b.subrange(3, 6) =~= c.subrange(3, 6)) by {
            let x = b.subrange(3, 6);
            let y = c.subrange(3, 6);
            assert forall|k: int| 0 <= k < 3 implies #[trigger] x[k] == y[k] by {
                assert(b[k + 3] == c[k + 3]);
            }
        }
        assert(be_i32(b.skip(6)) == be_i32(c.skip(6))) by {
            assert(b[6] == c[6] && b[7] == c[7] && b[8] == c[8] && b[9] == c[9]);
        }
        lemma_entries_read_what_they_take(
            b.subrange(0, 3),
            b.subrange(3, 6),
            b.skip(10),
            c.skip(10),
            be_i32(b.skip(6)),
            Seq::empty(),
        );
    }
}

/// The elements of an array are decoded from the bytes that they take up
/// and from no others.
proof fn lemma_items_read_what_they_take(
    tag: Seq<u8>,
    b: Seq<u8>,
    c: Seq<u8>,
    count: int,
    done: Seq<Value>,
)
    requires
        items(tag, b, count, done) matches Ok((all, n)) && agree(b, c, n),
    ensures
        items(tag, c, count, done) == items(tag, b, count, done),
    decreases b.len(), 3int, count,
{
    if count > 0 {
        let total = items(tag, b, count, done)->Ok_0.1;
        let (v, n) = object(tag, b)->Ok_0;
        lemma_object_fits(tag, b);
        lemma_agree_rest(b, c, total, n);
        decoding_reads_what_it_takes(tag, b, c);
        lemma_items_read_what_they_take(tag, rest(b, n), rest(c, n), count - 1, done.push(v));
    }
}

/// The entries of a hashtable are decoded from the bytes that they take up
/// and from no others.
proof fn lemma_entries_read_what_they_take(
    key_tag: Seq<u8>,
    value_tag: Seq<u8>,
    b: Seq<u8>,
    c: Seq<u8>,
    count: int,
    done: Seq<(Value, Value)>,
)
    requires
        entries(key_tag, value_tag, b, count, done) matches Ok((all, n)) && agree(b, c, n),
    ensures
        entries(key_tag, value_tag, c, count, done) == entries(key_tag, value_tag, b, count, done),
    decreases b.len(), 3int, count,
{
    if count > 0 {
        let total = entries(key_tag, value_tag, b, count, done)->Ok_0.1;
        let ((k, v), n) = entry(key_tag, value_tag, b)->Ok_0;
        let (_, n1) = object(key_tag, b)->Ok_0;
        lemma_object_fits(key_tag, b);
        lemma_object_fits(value_tag, rest(b, n1));
        lemma_agree_rest(b, c, total, n);
        lemma_agree_rest(b, c, n, n1);
        decoding_reads_what_it_takes(key_tag, b, c);
        decoding_reads_what_it_takes(value_tag, rest(b, n1), rest(c, n1));
        assert(entry(key_tag, value_tag, c) == entry(key_tag, value_tag, b));
        assert(agree(rest(b, n), rest(c, n), (total - n) as nat));
        lemma_entries_read_what_they_take(
            key_tag,
            value_tag,
            rest(b, n),
            rest(c, n),
            count - 1,
            put(done, k, v),
        );
    }
}

} // verus!

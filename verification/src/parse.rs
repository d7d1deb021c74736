//! Decoding of the relay's binary objects.

use vstd::prelude::*;
use vstd::slice::slice_subrange;
use crate::conversions::be_word;
use crate::decimal::{parse_i32, parse_i64};
use crate::errors::{Fault, WeechatError};
use crate::message::{lemma_view_arr, lemma_view_htb, pairs, values, Object};
use crate::model;
use crate::model::{well_formed, Value};
use crate::text::{bytes_eq, from_utf8, lemma_text_of_bytes};
use crate::wire;

verus! {

/// One decoded object, and the number of bytes it took up.
#[derive(Debug)]
pub struct Parse {
    /// The object that was decoded.
    pub object: Object,
    /// Number of bytes read to decode it.
    pub bytes_read: usize,
}

impl View for Parse {
    type V = (Value, nat);

    open spec fn view(&self) -> (Value, nat) {
        (self.object@, self.bytes_read as nat)
    }
}

/// What a decode step returned, as mathematics.
pub open spec fn decoded(r: Result<Parse, WeechatError>) -> wire::Decoded {
    match r {
        Ok(p) => Ok(p@),
        Err(e) => Err(e@),
    }
}

/// Whether what a decode step returned, where it is an object, takes up at
/// least one byte and no more than the `len` that were there, and has
/// distinct keys in every hashtable.
pub open spec fn fits(r: Result<Parse, WeechatError>, len: nat) -> bool {
    r matches Ok(p) ==> 1 <= p.bytes_read <= len && well_formed(p.object@)
}

/// What a framing step returned, as mathematics.
pub open spec fn framed(r: Result<&[u8], WeechatError>) -> Result<Seq<u8>, Fault> {
    match r {
        Ok(p) => Ok(p@),
        Err(e) => Err(e@),
    }
}

/// What a framing step that may find null returned, as mathematics.
pub open spec fn framed_or_null(r: Result<Option<&[u8]>, WeechatError>) -> Result<
    Option<Seq<u8>>,
    Fault,
> {
    match r {
        Ok(Some(p)) => Ok(Some(p@)),
        Ok(None) => Ok(None),
        Err(e) => Err(e@),
    }
}

/// The payload behind a one-byte signed length.
fn short_payload<'a>(bytes: &'a [u8], few: &str, negative: &str, large: &str) -> (r: Result<
    &'a [u8],
    WeechatError,
>)
    ensures
        framed(r) == wire::short_payload(bytes@, few, negative, large),
{
    if bytes.len() < 1 {
        return Err(WeechatError::parse(few));
    }
    if bytes[0] >= 0x80 {
        return Err(WeechatError::parse(negative));
    }
    let size = bytes[0] as usize;
    if bytes.len() - 1 < size {
        return Err(WeechatError::parse(large));
    }
    Ok(slice_subrange(bytes, 1, 1 + size))
}

/// The payload behind a four-byte signed length; `None` where the length is -1.
fn wide_payload<'a>(bytes: &'a [u8], few: &str, negative: &str, large: &str) -> (r: Result<
    Option<&'a [u8]>,
    WeechatError,
>)
    ensures
        framed_or_null(r) == wire::wide_payload(bytes@, few, negative, large),
{
    if bytes.len() < 4 {
        return Err(WeechatError::parse(few));
    }
    assert(bytes@.skip(0) =~= bytes@);
    let size = be_word(bytes, 0);
    if size == -1 {
        return Ok(None);
    }
    if size < 0 {
        return Err(WeechatError::parse(negative));
    }
    if bytes.len() - 4 < size as usize {
        return Err(WeechatError::parse(large));
    }
    Ok(Some(slice_subrange(bytes, 4, 4 + size as usize)))
}

impl Parse {
    /// Decodes a char: one raw byte.
    pub fn character(bytes: &[u8]) -> (r: Result<Parse, WeechatError>)
        ensures
            decoded(r) == wire::character(bytes@),
            fits(r, bytes@.len()),
    {
        if bytes.len() < 1 {
            return Err(WeechatError::parse("Not enough bytes to parse character"));
        }
        Ok(Parse { object: Object::Chr(bytes[0] as char), bytes_read: 1 })
    }

    /// Decodes an int: four bytes, big-endian and signed.
    pub fn integer(bytes: &[u8]) -> (r: Result<Parse, WeechatError>)
        ensures
            decoded(r) == wire::integer(bytes@),
            fits(r, bytes@.len()),
    {
        if bytes.len() < 4 {
            return Err(WeechatError::parse("Not enough bytes to parse int"));
        }
        assert(bytes@.skip(0) =~= bytes@);
        Ok(Parse { object: Object::Int(be_word(bytes, 0)), bytes_read: 4 })
    }

    /// Decodes a long: a one-byte length, then that many decimal digits,
    /// read as a signed 64-bit integer.
    pub fn long(bytes: &[u8]) -> (r: Result<Parse, WeechatError>)
        ensures
            decoded(r) == wire::long(bytes@),
            fits(r, bytes@.len()),
    {
        let text = match short_payload(
            bytes,
            "Not enough bytes to parse long",
            "Long has a negative size",
            "Long larger then available bytes",
        ) {
            Ok(text) => text,
            Err(e) => { return Err(e); },
        };
        if from_utf8(text).is_err() {
            return Err(WeechatError::parse("Parsed invalid utf8 string"));
        }
        match parse_i64(text) {
            Some(l) => Ok(Parse { object: Object::Lon(l), bytes_read: 1 + text.len() }),
            None => Err(WeechatError::parse("String to long conversion failed")),
        }
    }

    /// Decodes a time: framed as a long, and read as signed 32-bit seconds
    /// since the epoch.
    pub fn time(bytes: &[u8]) -> (r: Result<Parse, WeechatError>)
        ensures
            decoded(r) == wire::time(bytes@),
            fits(r, bytes@.len()),
    {
        let text = match short_payload(
            bytes,
            "Not enough bytes parse time",
            "Time has a negative size",
            "Not enough bytes to parse time",
        ) {
            Ok(text) => text,
            Err(e) => { return Err(e); },
        };
        if from_utf8(text).is_err() {
            return Err(WeechatError::parse("Parsed invalid utf8 string"));
        }
        match parse_i32(text) {
            Some(t) => Ok(Parse { object: Object::Tim(t), bytes_read: 1 + text.len() }),
            None => Err(WeechatError::parse("String to i32 conversion failed")),
        }
    }

    /// Decodes a pointer: a one-byte length, then that many bytes of text.
    /// The text `0` alone is the null pointer.
    pub fn pointer(bytes: &[u8]) -> (r: Result<Parse, WeechatError>)
        ensures
            decoded(r) == wire::pointer(bytes@),
            fits(r, bytes@.len()),
    {
        let text = match short_payload(
            bytes,
            "Not enough bytes to parse pointer",
            "Pointer has a negative size",
            "Pointer larger then availiable bytes",
        ) {
            Ok(text) => text,
            Err(e) => { return Err(e); },
        };
        let ptr = match from_utf8(text) {
            Ok(s) => s,
            Err(_) => { return Err(WeechatError::parse("Parsed invalid utf8 string")); },
        };
        proof {
            lemma_text_of_bytes(ptr, text@);
        }
        let null = text.len() == 1 && text[0] == 0x30;
        assert(null == (text@ =~= wire::null_pointer()));
        let object = if null {
            None
        } else {
            Some(ptr.to_string())
        };
        Ok(Parse { object: Object::Ptr(object), bytes_read: 1 + text.len() })
    }

    /// Decodes a string: a four-byte signed length, then that many bytes of
    /// UTF-8. Length -1 is the null string; length 0 is the empty one.
    pub fn string(bytes: &[u8]) -> (r: Result<Parse, WeechatError>)
        ensures
            decoded(r) == wire::string(bytes@),
            fits(r, bytes@.len()),
    {
        let text = match wide_payload(
            bytes,
            "Not enough bytes to parse string",
            "String has a negative size",
            "String larger then availiable bytes",
        ) {
            Ok(Some(text)) => text,
            Ok(None) => { return Ok(Parse { object: Object::Str(None), bytes_read: 4 }); },
            Err(e) => { return Err(e); },
        };
        match from_utf8(text) {
            Ok(s) => {
                proof {
                    lemma_text_of_bytes(s, text@);
                }
                Ok(Parse { object: Object::Str(Some(s.to_string())), bytes_read: 4 + text.len() })
            },
            Err(_) => Err(WeechatError::parse("Parsed invalid utf8 string")),
        }
    }

    /// Decodes a buffer: framed as a string, and kept as raw bytes.
    pub fn buffer(bytes: &[u8]) -> (r: Result<Parse, WeechatError>)
        ensures
            decoded(r) == wire::buffer(bytes@),
            fits(r, bytes@.len()),
    {
        match wide_payload(
            bytes,
            "Not enough bytes to parse buffer",
            "Buffer has a negative size",
            "Buffer larger then availiable bytes",
        ) {
            Ok(Some(payload)) => Ok(
                Parse {
                    object: Object::Buf(Some(vstd::slice::slice_to_vec(payload))),
                    bytes_read: 4 + payload.len(),
                },
            ),
            Ok(None) => Ok(Parse { object: Object::Buf(None), bytes_read: 4 }),
            Err(e) => Err(e),
        }
    }
}

/// Gives `key` the value `value` in the table `entries`.
fn put(entries: &mut Vec<(Object, Object)>, key: Object, value: Object)
    ensures
        pairs(final(entries)@) == model::put(
            pairs(old(entries)@),
            key@,
            value@,
        ),
{
    proof {
        reveal(model::put);
    }
    let ghost before = pairs(entries@);
    let mut i: usize = 0;
    while i < entries.len()
        invariant
            i <= entries.len(),
            entries@ == old(entries)@,
            before == pairs(entries@),
            forall|k: int| #![trigger before[k]] 0 <= k < i ==> !model::same(before[k].0, key@),
        decreases entries.len() - i,
    {
        if entries[i].0.same(&key) {
            proof {
                reveal(model::put);
            }
            assert(model::first_at(before, key@, i as int));
            proof {
                let at = choose|k: int| model::first_at(before, key@, k);
                model::lemma_first_at_unique(before, key@, at, i as int);
            }
            let old_entry = entries.remove(i);
            entries.insert(i, (old_entry.0, value));
            assert(pairs(entries@) =~= before.update(
                i as int,
                (before[i as int].0, value@),
            ));
            return;
        }
        i += 1;
    }
    assert(!exists|k: int| model::first_at(before, key@, k));
    entries.push((key, value));
    assert(pairs(entries@) =~= before.push((key@, value@)));
}

impl Parse {
    /// Decodes one object of the kind that the three bytes of `tag` name.
    pub(crate) fn tagged(tag: &[u8], bytes: &[u8]) -> (r: Result<Parse, WeechatError>)
        ensures
            decoded(r) == wire::object(tag@, bytes@),
            fits(r, bytes@.len()),
        decreases bytes@.len(), 1int, 0int,
    {
        if bytes_eq(tag, &[0x63, 0x68, 0x72]) {
            Parse::character(bytes)
        } else if bytes_eq(tag, &[0x69, 0x6e, 0x74]) {
            Parse::integer(bytes)
        } else if bytes_eq(tag, &[0x6c, 0x6f, 0x6e]) {
            Parse::long(bytes)
        } else if bytes_eq(tag, &[0x73, 0x74, 0x72]) {
            Parse::string(bytes)
        } else if bytes_eq(tag, &[0x62, 0x75, 0x66]) {
            Parse::buffer(bytes)
        } else if bytes_eq(tag, &[0x70, 0x74, 0x72]) {
            Parse::pointer(bytes)
        } else if bytes_eq(tag, &[0x74, 0x69, 0x6d]) {
            Parse::time(bytes)
        } else if bytes_eq(tag, &[0x61, 0x72, 0x72]) {
            Parse::array(bytes)
        } else if bytes_eq(tag, &[0x68, 0x74, 0x62]) {
            Parse::hashtable(bytes)
        } else {
            Err(WeechatError::parse("Unknown data type"))
        }
    }

    /// Decodes one object of the kind that `data_type` names: `chr`, `int`,
    /// `lon`, `str`, `buf`, `ptr`, `tim`, `arr` or `htb`.
    pub fn parse_type(data_type: &str, bytes: &[u8]) -> (r: Result<Parse, WeechatError>)
        ensures
            decoded(r) == wire::object(vstd::utf8::encode_utf8(data_type@), bytes@),
            fits(r, bytes@.len()),
    {
        Parse::tagged(data_type.as_bytes(), bytes)
    }

    /// Decodes `count` objects of the kind that `tag` names, one after the
    /// other, and says how many bytes they took up.
    fn items(tag: &[u8], bytes: &[u8], count: i32) -> (r: Result<(Vec<Object>, usize), WeechatError>)
        ensures
            match r {
                Ok((objects, n)) => n <= bytes@.len() && wire::items(
                    tag@,
                    bytes@,
                    count as int,
                    Seq::empty(),
                ) == Ok::<(Seq<Value>, nat), Fault>((values(objects@), n as nat)),
                Err(e) => wire::items(tag@, bytes@, count as int, Seq::empty()) == Err::<
                    (Seq<Value>, nat),
                    Fault,
                >(e@),
            },
        decreases bytes@.len(), 3int, 0int,
    {
        let ghost whole = wire::items(tag@, bytes@, count as int, Seq::empty());
        let mut objects: Vec<Object> = Vec::new();
        let mut pos: usize = 0;
        let mut i: i32 = 0;
        assert(values(objects@) =~= Seq::empty());
        assert(bytes@.skip(0) =~= bytes@);
        while i < count
            invariant
                pos <= bytes.len(),
                0 <= i,
                whole == wire::items(tag@, bytes@, count as int, Seq::empty()),
                whole == wire::shifted(
                    wire::items(
                        tag@,
                        bytes@.skip(pos as int),
                        count - i,
                        values(objects@),
                    ),
                    pos as nat,
                ),
            decreases count - i,
        {
            let remaining = slice_subrange(bytes, pos, bytes.len());
            proof {
                assert(remaining@ =~= bytes@.skip(pos as int));
                wire::lemma_items_step(
                    tag@,
                    bytes@,
                    pos as nat,
                    count - i,
                    values(objects@),
                );
            }
            let parsed = match Parse::tagged(tag, remaining) {
                Ok(parsed) => parsed,
                Err(e) => {
                    return Err(e);
                },
            };
            proof {
                assert(values(objects@.push(parsed.object))
                    =~= values(objects@).push(parsed.object@));
            }
            pos += parsed.bytes_read;
            objects.push(parsed.object);
            i += 1;
        }
        Ok((objects, pos))
    }

    /// Decodes an array: the three-byte tag of its elements, a four-byte
    /// count, then the elements. A count of zero or less is the empty array.
    pub fn array(bytes: &[u8]) -> (r: Result<Parse, WeechatError>)
        ensures
            decoded(r) == wire::array(bytes@),
            fits(r, bytes@.len()),
        decreases bytes@.len(), 0int, 0int,
    {
        if bytes.len() < 7 {
            return Err(WeechatError::parse("Not enough bytes to have an array"));
        }
        let tag = slice_subrange(bytes, 0, 3);
        if from_utf8(tag).is_err() {
            return Err(WeechatError::parse("Parsed invalid utf8 string"));
        }
        let count = be_word(bytes, 3);
        let elements = slice_subrange(bytes, 7, bytes.len());
        assert(elements@ =~= bytes@.skip(7));
        let (objects, n) = match Parse::items(tag, elements, count) {
            Ok(read) => read,
            Err(e) => {
                return Err(e);
            },
        };
        proof {
            lemma_view_arr(objects);
            wire::lemma_array_fits(bytes@);
        }
        Ok(Parse { object: Object::Arr(objects), bytes_read: 7 + n })
    }

    /// Decodes one entry of a hashtable: a key, then a value.
    fn entry(key_tag: &[u8], value_tag: &[u8], bytes: &[u8]) -> (r: Result<
        (Object, Object, usize),
        WeechatError,
    >)
        ensures
            match r {
                Ok((k, v, n)) => wire::entry(key_tag@, value_tag@, bytes@) == Ok::<
                    ((Value, Value), nat),
                    Fault,
                >(((k@, v@), n as nat)),
                Err(e) => wire::entry(key_tag@, value_tag@, bytes@) == Err::<
                    ((Value, Value), nat),
                    Fault,
                >(e@),
            },
        decreases bytes@.len(), 2int, 0int,
    {
        let key = match Parse::tagged(key_tag, bytes) {
            Ok(parsed) => parsed,
            Err(e) => {
                return Err(e);
            },
        };
        let remaining = slice_subrange(bytes, key.bytes_read, bytes.len());
        assert(remaining@ =~= wire::rest(bytes@, key.bytes_read as nat));
        let value = match Parse::tagged(value_tag, remaining) {
            Ok(parsed) => parsed,
            Err(e) => {
                return Err(e);
            },
        };
        Ok((key.object, value.object, key.bytes_read + value.bytes_read))
    }

    /// Decodes `count` entries of a hashtable, one after the other, and
    /// says how many bytes they took up.
    fn entries(key_tag: &[u8], value_tag: &[u8], bytes: &[u8], count: i32) -> (r: Result<
        (Vec<(Object, Object)>, usize),
        WeechatError,
    >)
        ensures
            match r {
                Ok((table, n)) => n <= bytes@.len() && wire::entries(
                    key_tag@,
                    value_tag@,
                    bytes@,
                    count as int,
                    Seq::empty(),
                ) == Ok::<(Seq<(Value, Value)>, nat), Fault>(
                    (pairs(table@), n as nat),
                ),
                Err(e) => wire::entries(key_tag@, value_tag@, bytes@, count as int, Seq::empty())
                    == Err::<(Seq<(Value, Value)>, nat), Fault>(e@),
            },
        decreases bytes@.len(), 3int, 0int,
    {
        let ghost whole = wire::entries(key_tag@, value_tag@, bytes@, count as int, Seq::empty());
        let mut table: Vec<(Object, Object)> = Vec::new();
        let mut pos: usize = 0;
        let mut i: i32 = 0;
        assert(pairs(table@) =~= Seq::empty());
        assert(bytes@.skip(0) =~= bytes@);
        while i < count
            invariant
                pos <= bytes.len(),
                0 <= i,
                whole == wire::entries(key_tag@, value_tag@, bytes@, count as int, Seq::empty()),
                whole == wire::shifted(
                    wire::entries(
                        key_tag@,
                        value_tag@,
                        bytes@.skip(pos as int),
                        count - i,
                        pairs(table@),
                    ),
                    pos as nat,
                ),
            decreases count - i,
        {
            let remaining = slice_subrange(bytes, pos, bytes.len());
            proof {
                assert(remaining@ =~= bytes@.skip(pos as int));
                wire::lemma_entries_step(
                    key_tag@,
                    value_tag@,
                    bytes@,
                    pos as nat,
                    count - i,
                    pairs(table@),
                );
            }
            let (key, value, n) = match Parse::entry(key_tag, value_tag, remaining) {
                Ok(entry) => entry,
                Err(e) => {
                    return Err(e);
                },
            };
            pos += n;
            put(&mut table, key, value);
            i += 1;
        }
        Ok((table, pos))
    }

    /// Decodes a hashtable: the three-byte tag of its keys, that of its
    /// values, a four-byte count, then the entries, key before value. A key
    /// that comes again gives its entry a new value.
    pub fn hashtable(bytes: &[u8]) -> (r: Result<Parse, WeechatError>)
        ensures
            decoded(r) == wire::hashtable(bytes@),
            fits(r, bytes@.len()),
        decreases bytes@.len(), 0int, 0int,
    {
        if bytes.len() < 10 {
            return Err(WeechatError::parse("Not enough bytes to have a hashtable"));
        }
        let key_tag = slice_subrange(bytes, 0, 3);
        if from_utf8(key_tag).is_err() {
            return Err(WeechatError::parse("Parsed invalid utf8 string"));
        }
        let value_tag = slice_subrange(bytes, 3, 6);
        if from_utf8(value_tag).is_err() {
            return Err(WeechatError::parse("Parsed invalid utf8 string"));
        }
        let count = be_word(bytes, 6);
        let entries = slice_subrange(bytes, 10, bytes.len());
        assert(entries@ =~= bytes@.skip(10));
        let (table, n) = match Parse::entries(key_tag, value_tag, entries, count) {
            Ok(read) => read,
            Err(e) => {
                return Err(e);
            },
        };
        proof {
            lemma_view_htb(table);
            wire::lemma_hashtable_fits(bytes@);
        }
        Ok(Parse { object: Object::Htb(table), bytes_read: 10 + n })
    }
}

} // verus!

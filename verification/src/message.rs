//! Messages of the relay and the objects they carry.

use vstd::prelude::*;
use vstd::slice::slice_subrange;
use vstd::std_specs::cmp::PartialEqSpecImpl;
use vstd::utf8::{decode_utf8, valid_utf8};
use crate::conversions::be_i32;
use crate::errors::{malformed, Fault, WeechatError};
use crate::hdata::{hdata, Fields, HData};
use crate::model::{holds, same, Value};
use crate::parse::Parse;
use crate::strdata::{strdata, StrData};
use crate::text::{bytes_eq, from_utf8};
use crate::wire;

verus! {

/// One decoded wire value.
#[derive(Debug)]
pub enum Object {
    Arr(Vec<Object>),
    Buf(Option<Vec<u8>>),
    Chr(char),
    /// The entries of a hashtable, in the order in which their keys first arrived.
    Htb(Vec<(Object, Object)>),
    Int(i32),
    Lon(i64),
    Ptr(Option<String>),
    Str(Option<String>),
    Tim(i32),
}

impl Object {
    /// The value that this object holds.
    pub open spec fn value(&self) -> Value
        decreases self,
    {
        match self {
            Object::Arr(v) => Value::Arr(
                Seq::new(
                    v@.len(),
                    |i: int|
                        if 0 <= i < v@.len() {
                            v@[i].value()
                        } else {
                            arbitrary()
                        },
                ),
            ),
            Object::Buf(Some(b)) => Value::Buf(Some(b@)),
            Object::Buf(None) => Value::Buf(None),
            Object::Chr(c) => Value::Chr(*c),
            Object::Htb(v) => Value::Htb(
                Seq::new(
                    v@.len(),
                    |i: int|
                        if 0 <= i < v@.len() {
                            (v@[i].0.value(), v@[i].1.value())
                        } else {
                            arbitrary()
                        },
                ),
            ),
            Object::Int(i) => Value::Int(*i as int),
            Object::Lon(l) => Value::Lon(*l as int),
            Object::Ptr(Some(p)) => Value::Ptr(Some(p@)),
            Object::Ptr(None) => Value::Ptr(None),
            Object::Str(Some(s)) => Value::Str(Some(s@)),
            Object::Str(None) => Value::Str(None),
            Object::Tim(t) => Value::Tim(*t as int),
        }
    }
}

impl View for Object {
    type V = Value;

    open spec fn view(&self) -> Value {
        self.value()
    }
}

/// The values of a list of objects.
pub open spec fn values(v: Seq<Object>) -> Seq<Value> {
    Seq::new(v.len(), |i: int| v[i]@)
}

/// The entries of a list of pairs of objects.
pub open spec fn pairs(v: Seq<(Object, Object)>) -> Seq<(Value, Value)> {
    Seq::new(v.len(), |i: int| (v[i].0@, v[i].1@))
}

/// The view of an array is the values of its elements.
pub proof fn lemma_view_arr(v: Vec<Object>)
    ensures
        Object::Arr(v)@ == Value::Arr(values(v@)),
{
    assert(Object::Arr(v)@->Arr_0 =~= values(v@));
}

/// The view of a hashtable is the entries of its pairs.
pub proof fn lemma_view_htb(v: Vec<(Object, Object)>)
    ensures
        Object::Htb(v)@ == Value::Htb(pairs(v@)),
{
    assert(Object::Htb(v)@->Htb_0 =~= pairs(v@));
}

impl Object {
    /// The elements, if this is an array.
    pub fn as_array(&self) -> (r: Result<&[Object], WeechatError>)
        ensures
            match self {
                Object::Arr(v) => r matches Ok(s) && s@ == v@,
                _ => r matches Err(e) && e@ == malformed("Item is not an array"),
            },
    {
        match self {
            Object::Arr(arr) => Ok(arr.as_slice()),
            _ => Err(WeechatError::parse("Item is not an array")),
        }
    }

    /// The bytes, if this is a buffer; `None` for the null buffer.
    pub fn as_buffer(&self) -> (r: Result<Option<&[u8]>, WeechatError>)
        ensures
            match self {
                Object::Buf(Some(v)) => r matches Ok(Some(s)) && s@ == v@,
                Object::Buf(None) => r matches Ok(None),
                _ => r matches Err(e) && e@ == malformed("Item is not a buffer"),
            },
    {
        match self {
            Object::Buf(Some(vec)) => Ok(Some(vec.as_slice())),
            Object::Buf(None) => Ok(None),
            _ => Err(WeechatError::parse("Item is not a buffer")),
        }
    }

    /// The bytes, if this is a buffer that is not null. Null is not empty.
    pub fn as_not_null_buffer(&self) -> (r: Result<&[u8], WeechatError>)
        ensures
            match self {
                Object::Buf(Some(v)) => r matches Ok(s) && s@ == v@,
                Object::Buf(None) => r matches Err(e) && e@ == malformed("Buffer is null"),
                _ => r matches Err(e) && e@ == malformed("Item is not a buffer"),
            },
    {
        match self.as_buffer() {
            Ok(Some(b)) => Ok(b),
            Ok(None) => Err(WeechatError::parse("Buffer is null")),
            Err(e) => Err(e),
        }
    }

    /// The character, if this is one.
    pub fn as_character(&self) -> (r: Result<char, WeechatError>)
        ensures
            match self {
                Object::Chr(c) => r matches Ok(x) && x == c,
                _ => r matches Err(e) && e@ == malformed("Item is not a character"),
            },
    {
        match self {
            Object::Chr(c) => Ok(*c),
            _ => Err(WeechatError::parse("Item is not a character")),
        }
    }

    /// The integer, if this is one.
    pub fn as_integer(&self) -> (r: Result<i32, WeechatError>)
        ensures
            match self {
                Object::Int(i) => r matches Ok(x) && x == i,
                _ => r matches Err(e) && e@ == malformed("Item is not a integer"),
            },
    {
        match self {
            Object::Int(i) => Ok(*i),
            _ => Err(WeechatError::parse("Item is not a integer")),
        }
    }

    /// The long integer, if this is one.
    pub fn as_long(&self) -> (r: Result<i64, WeechatError>)
        ensures
            match self {
                Object::Lon(l) => r matches Ok(x) && x == l,
                _ => r matches Err(e) && e@ == malformed("Item is not a long"),
            },
    {
        match self {
            Object::Lon(l) => Ok(*l),
            _ => Err(WeechatError::parse("Item is not a long")),
        }
    }

    /// The text of the pointer, if this is one; `None` for the null pointer.
    pub fn as_pointer(&self) -> (r: Result<Option<&str>, WeechatError>)
        ensures
            match self {
                Object::Ptr(Some(p)) => r matches Ok(Some(s)) && s@ == p@,
                Object::Ptr(None) => r matches Ok(None),
                _ => r matches Err(e) && e@ == malformed("Item is not a pointer"),
            },
    {
        match self {
            Object::Ptr(Some(p)) => Ok(Some(p.as_str())),
            Object::Ptr(None) => Ok(None),
            _ => Err(WeechatError::parse("Item is not a pointer")),
        }
    }

    /// The text of the pointer, if this is a pointer that is not null.
    pub fn as_not_null_pointer(&self) -> (r: Result<&str, WeechatError>)
        ensures
            match self {
                Object::Ptr(Some(p)) => r matches Ok(s) && s@ == p@,
                Object::Ptr(None) => r matches Err(e) && e@ == malformed("pointer is null"),
                _ => r matches Err(e) && e@ == malformed("Item is not a pointer"),
            },
    {
        match self.as_pointer() {
            Ok(Some(p)) => Ok(p),
            Ok(None) => Err(WeechatError::parse("pointer is null")),
            Err(e) => Err(e),
        }
    }

    /// The text, if this is a string; `None` for the null string.
    pub fn as_str(&self) -> (r: Result<Option<&str>, WeechatError>)
        ensures
            match self {
                Object::Str(Some(t)) => r matches Ok(Some(s)) && s@ == t@,
                Object::Str(None) => r matches Ok(None),
                _ => r matches Err(e) && e@ == malformed("Item is not a string"),
            },
    {
        match self {
            Object::Str(Some(s)) => Ok(Some(s.as_str())),
            Object::Str(None) => Ok(None),
            _ => Err(WeechatError::parse("Item is not a string")),
        }
    }

    /// The text, if this is a string that is not null. Null is not empty.
    pub fn as_not_null_str(&self) -> (r: Result<&str, WeechatError>)
        ensures
            match self {
                Object::Str(Some(t)) => r matches Ok(s) && s@ == t@,
                Object::Str(None) => r matches Err(e) && e@ == malformed("String is null"),
                _ => r matches Err(e) && e@ == malformed("Item is not a string"),
            },
    {
        match self.as_str() {
            Ok(Some(s)) => Ok(s),
            Ok(None) => Err(WeechatError::parse("String is null")),
            Err(e) => Err(e),
        }
    }

    /// The seconds since the epoch, if this is a time.
    pub fn as_time(&self) -> (r: Result<i32, WeechatError>)
        ensures
            match self {
                Object::Tim(t) => r matches Ok(x) && x == t,
                _ => r matches Err(e) && e@ == malformed("Item is not a time"),
            },
    {
        match self {
            Object::Tim(t) => Ok(*t),
            _ => Err(WeechatError::parse("Item is not a time")),
        }
    }
}

impl Object {
    /// Whether this object and `other` hold equal values. Hashtables are
    /// equal when they map equal keys to equal values, in whatever order.
    pub fn same(&self, other: &Object) -> (r: bool)
        ensures
            r == same(self@, other@),
        decreases self,
    {
        match (self, other) {
            (Object::Arr(x), Object::Arr(y)) => {
                proof {
                    lemma_view_arr(*x);
                    lemma_view_arr(*y);
                }
                if x.len() != y.len() {
                    return false;
                }
                let mut i: usize = 0;
                while i < x.len()
                    invariant
                        *self == Object::Arr(*x),
                        self@ == Value::Arr(values(x@)),
                        other@ == Value::Arr(values(y@)),
                        i <= x.len(),
                        x.len() == y.len(),
                        forall|k: int|
                            #![trigger values(x@)[k]]
                            0 <= k < i ==> same(values(x@)[k], values(y@)[k]),
                    decreases x.len() - i,
                {
                    if !x[i].same(&y[i]) {
                        assert(!same(values(x@)[i as int], values(y@)[i as int]));
                        return false;
                    }
                    i += 1;
                }
                true
            },
            (Object::Htb(x), Object::Htb(y)) => {
                proof {
                    lemma_view_htb(*x);
                    lemma_view_htb(*y);
                }
                if x.len() != y.len() {
                    return false;
                }
                let mut i: usize = 0;
                while i < x.len()
                    invariant
                        *self == Object::Htb(*x),
                        self@ == Value::Htb(pairs(x@)),
                        other@ == Value::Htb(pairs(y@)),
                        i <= x.len(),
                        x.len() == y.len(),
                        forall|k: int|
                            #![trigger pairs(x@)[k]]
                            0 <= k < i ==> holds(pairs(y@), pairs(x@)[k]),
                    decreases x.len() - i,
                {
                    let mut found = false;
                    let mut j: usize = 0;
                    while j < y.len() && !found
                        invariant
                            *self == Object::Htb(*x),
                            i < x.len(),
                            j <= y.len(),
                            found ==> holds(pairs(y@), pairs(x@)[i as int]),
                            !found ==> forall|m: int|
                                #![trigger pairs(y@)[m]]
                                0 <= m < j ==> !(same(pairs(x@)[i as int].0, pairs(y@)[m].0)
                                    && same(pairs(x@)[i as int].1, pairs(y@)[m].1)),
                        decreases y.len() - j + if found { 0int } else { 1int },
                    {
                        proof {
                            assert(decreases_to!(*self => self->Htb_0@));
                            assert(decreases_to!(x@ => x@[i as int]));
                        }
                        if x[i].0.same(&y[j].0) && x[i].1.same(&y[j].1) {
                            assert(same(pairs(x@)[i as int].0, pairs(y@)[j as int].0) && same(
                                pairs(x@)[i as int].1,
                                pairs(y@)[j as int].1,
                            ));
                            found = true;
                        } else {
                            j += 1;
                        }
                    }
                    if !found {
                        assert(!holds(pairs(y@), pairs(x@)[i as int]));
                        return false;
                    }
                    i += 1;
                }
                true
            },
            (Object::Buf(Some(x)), Object::Buf(Some(y))) => crate::text::bytes_eq(
                x.as_slice(),
                y.as_slice(),
            ),
            (Object::Buf(None), Object::Buf(None)) => true,
            (Object::Chr(x), Object::Chr(y)) => *x == *y,
            (Object::Int(x), Object::Int(y)) => *x == *y,
            (Object::Lon(x), Object::Lon(y)) => *x == *y,
            (Object::Ptr(Some(x)), Object::Ptr(Some(y))) => crate::text::text_eq(
                x.as_str(),
                y.as_str(),
            ),
            (Object::Ptr(None), Object::Ptr(None)) => true,
            (Object::Str(Some(x)), Object::Str(Some(y))) => crate::text::text_eq(
                x.as_str(),
                y.as_str(),
            ),
            (Object::Str(None), Object::Str(None)) => true,
            (Object::Tim(x), Object::Tim(y)) => *x == *y,
            _ => false,
        }
    }
}

impl PartialEq for Object {
    fn eq(&self, other: &Object) -> (r: bool) {
        self.same(other)
    }
}

impl PartialEqSpecImpl for Object {
    open spec fn obeys_eq_spec() -> bool {
        true
    }

    open spec fn eq_spec(&self, other: &Object) -> bool {
        same(self@, other@)
    }
}

impl Eq for Object {

}

/// The number of bytes of a message header.
pub const HEADER_LENGTH: usize = 5;

/// The header of a message: four bytes that give the length of the whole
/// message, header included, and one byte that is 1 if the body is
/// compressed and 0 if it is not. Yields the length of the body and the flag.
pub open spec fn header(b: Seq<u8>) -> Result<(nat, bool), Fault> {
    if b.len() < 4 {
        Err(malformed("Not enough bytes to parse int"))
    } else if b.len() < 5 {
        Err(malformed("Not enough bytes to parse character"))
    } else if b[4] > 1 {
        Err(malformed("Bad compression byte"))
    } else if be_i32(b) < 5 {
        Err(malformed("Message is shorter than its header"))
    } else {
        Ok(((be_i32(b) - 5) as nat, b[4] == 1))
    }
}

/// Holds header information for data received from the relay.
#[derive(Debug)]
pub struct Header {
    /// Size of the message body (not including header size).
    pub length: usize,
    /// Flag if zlib compression is enabled.
    pub compression: bool,
}

impl View for Header {
    type V = (nat, bool);

    open spec fn view(&self) -> (nat, bool) {
        (self.length as nat, self.compression)
    }
}

impl Header {
    /// Decodes the header of a message from its first five bytes.
    pub fn new(bytes: &[u8]) -> (r: Result<Header, WeechatError>)
        ensures
            match r {
                Ok(h) => header(bytes@) == Ok::<(nat, bool), Fault>(h@),
                Err(e) => header(bytes@) == Err::<(nat, bool), Fault>(e@),
            },
    {
        // The length of the whole message.
        let parsed = match Parse::integer(bytes) {
            Ok(parsed) => parsed,
            Err(e) => {
                return Err(e);
            },
        };
        let total = match parsed.object.as_integer() {
            Ok(total) => total,
            Err(e) => {
                return Err(e);
            },
        };
        let read = parsed.bytes_read;

        // The compression flag.
        let remaining = slice_subrange(bytes, read, bytes.len());
        let parsed = match Parse::character(remaining) {
            Ok(parsed) => parsed,
            Err(e) => {
                return Err(e);
            },
        };
        let flag = match parsed.object.as_character() {
            Ok(flag) => flag,
            Err(e) => {
                return Err(e);
            },
        };
        assert(flag as int == bytes@[4] as int);
        let compression = if flag == '\0' {
            false
        } else if flag == '\x01' {
            true
        } else {
            return Err(WeechatError::parse("Bad compression byte"));
        };
        let read = read + parsed.bytes_read;

        // The header gives the length of the whole message; what is left
        // to read is the body.
        if total < 5 {
            return Err(WeechatError::parse("Message is shorter than its header"));
        }
        Ok(Header { length: total as usize - read, compression })
    }
}

/// What a message carries, as mathematics.
pub enum Payload {
    Str(Option<Seq<char>>),
    HData(Seq<Fields>),
}

/// The body of a message: three bytes that name its kind, `str` or `hda`,
/// and then what that kind holds.
pub open spec fn body(b: Seq<u8>) -> Result<Payload, Fault> {
    if b.len() < 3 {
        Err(malformed("Not enough bytes to have a message type"))
    } else if !valid_utf8(b.take(3)) {
        Err(wire::invalid_text())
    } else if b.take(3) == wire::tag_str() {
        match strdata(b.skip(3)) {
            Ok(text) => Ok(Payload::Str(text)),
            Err(e) => Err(e),
        }
    } else if b.take(3) == wire::tag_hda() {
        match hdata(b.skip(3)) {
            Ok(records) => Ok(Payload::HData(records)),
            Err(e) => Err(e),
        }
    } else {
        Err(malformed("Unknown message type"))
    }
}

/// A message: a string that identifies it, which must not be null, and the
/// body.
pub open spec fn message(b: Seq<u8>) -> Result<(Seq<char>, Payload), Fault> {
    match wire::text(b) {
        Err(e) => Err(e),
        Ok((None, _)) => Err(malformed("String is null")),
        Ok((Some(identifier), n)) => match body(wire::rest(b, n)) {
            Ok(payload) => Ok((decode_utf8(identifier), payload)),
            Err(e) => Err(e),
        },
    }
}

/// Possible types of messages received from the relay.
#[derive(Debug)]
pub enum Type {
    StrData(StrData),
    HData(HData),
}

impl View for Type {
    type V = Payload;

    open spec fn view(&self) -> Payload {
        match self {
            Type::StrData(s) => Payload::Str(s@),
            Type::HData(h) => Payload::HData(h@),
        }
    }
}

/// Message received from the relay.
#[derive(Debug)]
pub struct Message {
    /// Identifier of the message.
    pub identifier: String,
    /// Data contained in this message.
    data_type: Type,
}

impl View for Message {
    type V = (Seq<char>, Payload);

    closed spec fn view(&self) -> (Seq<char>, Payload) {
        (self.identifier@, self.data_type@)
    }
}

impl Message {
    /// Decodes a message from the bytes that follow its header.
    pub fn new(bytes: &[u8]) -> (r: Result<Message, WeechatError>)
        ensures
            match r {
                Ok(m) => message(bytes@) == Ok::<(Seq<char>, Payload), Fault>(m@),
                Err(e) => message(bytes@) == Err::<(Seq<char>, Payload), Fault>(e@),
            },
    {
        // First comes the identifier of the message.
        let parsed = match Parse::string(bytes) {
            Ok(parsed) => parsed,
            Err(e) => {
                return Err(e);
            },
        };
        let identifier = match parsed.object {
            Object::Str(Some(identifier)) => identifier,
            _ => {
                return Err(WeechatError::parse("String is null"));
            },
        };

        // The next three bytes tell the kind of the body.
        let start = parsed.bytes_read;
        if bytes.len() - start < 3 {
            return Err(WeechatError::parse("Not enough bytes to have a message type"));
        }
        let end = start + 3;
        let tag = slice_subrange(bytes, start, end);
        assert(tag@ =~= wire::rest(bytes@, start as nat).take(3));
        if from_utf8(tag).is_err() {
            return Err(WeechatError::parse("Parsed invalid utf8 string"));
        }
        let body = slice_subrange(bytes, end, bytes.len());
        assert(body@ =~= wire::rest(bytes@, start as nat).skip(3));
        let data_type = if bytes_eq(tag, &[0x73, 0x74, 0x72]) {
            match StrData::new(body) {
                Ok(s) => Type::StrData(s),
                Err(e) => {
                    return Err(e);
                },
            }
        } else if bytes_eq(tag, &[0x68, 0x64, 0x61]) {
            match HData::new(body) {
                Ok(h) => Type::HData(h),
                Err(e) => {
                    return Err(e);
                },
            }
        } else {
            return Err(WeechatError::parse("Unknown message type"));
        };
        Ok(Message { identifier, data_type })
    }

    /// The identifier of this message.
    pub fn identifier(&self) -> (r: &str)
        ensures
            r@ == self@.0,
    {
        self.identifier.as_str()
    }

    /// The contents of this message, if it is an hdata.
    pub fn as_hdata(&self) -> (r: Result<&HData, WeechatError>)
        ensures
            match self@.1 {
                Payload::HData(records) => r matches Ok(h) && h@ == records,
                _ => r matches Err(e) && e@ == malformed("Message is not an hdata"),
            },
    {
        match &self.data_type {
            Type::HData(hdata) => Ok(hdata),
            _ => Err(WeechatError::parse("Message is not an hdata")),
        }
    }

    /// The contents of this message, if it is a strdata.
    pub fn as_strdata(&self) -> (r: Result<&StrData, WeechatError>)
        ensures
            match self@.1 {
                Payload::Str(text) => r matches Ok(s) && s@ == text,
                _ => r matches Err(e) && e@ == malformed("Message is not a strdata"),
            },
    {
        match &self.data_type {
            Type::StrData(strdata) => Ok(strdata),
            _ => Err(WeechatError::parse("Message is not a strdata")),
        }
    }
}

/// Decoding a header fails with a parse error or not at all.
pub proof fn lemma_header_fault(b: Seq<u8>)
    ensures
        wire::fails_as_parse(header(b)),
{
}

/// Decoding a message fails with a parse error or not at all.
pub proof fn lemma_message_fault(b: Seq<u8>)
    ensures
        wire::fails_as_parse(message(b)),
{
    if let Ok((Some(identifier), n)) = wire::text(b) {
        let rest = wire::rest(b, n);
        if rest.len() >= 3 {
            crate::hdata::lemma_hdata_fault(rest.skip(3));
        }
    }
}

} // verus!

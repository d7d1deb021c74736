//! Strdata: a message body that is one string.

use vstd::prelude::*;
use vstd::utf8::decode_utf8;
use crate::errors::{malformed, Fault, WeechatError};
use crate::parse::Parse;
use crate::wire;

verus! {

/// The body of a strdata, from the bytes that follow its tag: one string,
/// which must take up all of the bytes. `None` is the null string.
pub open spec fn strdata(b: Seq<u8>) -> Result<Option<Seq<char>>, Fault> {
    match wire::text(b) {
        Err(e) => Err(e),
        Ok((text, n)) => if n != b.len() {
            Err(malformed("Not all bytes in message consumed"))
        } else {
            match text {
                Some(t) => Ok(Some(decode_utf8(t))),
                None => Ok(None),
            }
        },
    }
}

/// String data received in a message.
#[derive(Debug)]
pub struct StrData {
    data: Option<String>,
}

impl View for StrData {
    type V = Option<Seq<char>>;

    closed spec fn view(&self) -> Option<Seq<char>> {
        match self.data {
            Some(s) => Some(s@),
            None => None,
        }
    }
}

impl StrData {
    /// Decodes the body of a strdata from the bytes that follow its `str` tag.
    pub fn new(bytes: &[u8]) -> (r: Result<StrData, WeechatError>)
        ensures
            match r {
                Ok(s) => strdata(bytes@) == Ok::<Option<Seq<char>>, Fault>(s@),
                Err(e) => strdata(bytes@) == Err::<Option<Seq<char>>, Fault>(e@),
            },
    {
        let parsed = match Parse::string(bytes) {
            Ok(parsed) => parsed,
            Err(e) => {
                return Err(e);
            },
        };
        if bytes.len() != parsed.bytes_read {
            return Err(WeechatError::parse("Not all bytes in message consumed"));
        }
        match parsed.object {
            crate::message::Object::Str(data) => Ok(StrData { data }),
            _ => Err(WeechatError::parse("Item is not a string")),
        }
    }

    /// The text, or `None` for the null string.
    pub fn text(&self) -> (r: Option<&str>)
        ensures
            match r {
                Some(s) => self@ == Some(s@),
                None => self@ is None,
            },
    {
        match &self.data {
            Some(s) => Some(s.as_str()),
            None => None,
        }
    }
}

} // verus!

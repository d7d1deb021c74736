//! Objects as text, for people to read.

use vstd::prelude::*;
use crate::message::{lemma_view_arr, lemma_view_htb, pairs, values, Object};
use crate::model::Value;
use crate::text::char_text;

verus! {

/// The character for a digit.
pub open spec fn digit(d: int) -> char
    recommends
        0 <= d <= 9,
{
    ('0' as int + d) as char
}

/// A natural number in decimal, without leading zeros.
pub open spec fn natural_text(n: nat) -> Seq<char>
    decreases n,
{
    if n < 10 {
        seq![digit(n as int)]
    } else {
        natural_text(n / 10).push(digit((n % 10) as int))
    }
}

/// An integer in decimal, with a minus sign where it is below zero.
pub open spec fn integer_text(v: int) -> Seq<char> {
    if v < 0 {
        seq!['-'] + natural_text((-v) as nat)
    } else {
        natural_text(v as nat)
    }
}

/// The first `n` bytes of a buffer, each in decimal and followed by a comma
/// and a space.
pub open spec fn bytes_text(b: Seq<u8>, n: nat) -> Seq<char>
    decreases n,
{
    if n == 0 || n > b.len() {
        Seq::empty()
    } else {
        bytes_text(b, (n - 1) as nat) + natural_text(b[n - 1] as nat) + ", "@
    }
}

/// A value as text. Strings stand in quotes and pointers behind `0x`; the
/// elements of buffers, arrays and hashtables stand between brackets, each
/// followed by a comma and a space; a char stands as its number, and as
/// itself in brackets.
pub open spec fn display(v: Value) -> Seq<char>
    decreases v, 0nat,
{
    match v {
        Value::Arr(x) => "[ "@ + items_text(x, x.len()) + "]"@,
        Value::Buf(Some(b)) => "[ "@ + bytes_text(b, b.len()) + "]"@,
        Value::Buf(None) => "null"@,
        Value::Chr(c) => natural_text((c as u32 % 256) as nat) + " ('"@ + seq![c] + "')"@,
        Value::Htb(x) => "{ "@ + entries_text(x, x.len()) + "}"@,
        Value::Int(i) => integer_text(i),
        Value::Lon(l) => integer_text(l),
        Value::Ptr(Some(p)) => "0x"@ + p,
        Value::Ptr(None) => "0x0"@,
        Value::Str(Some(s)) => "\""@ + s + "\""@,
        Value::Str(None) => "null"@,
        Value::Tim(t) => integer_text(t),
    }
}

/// The first `n` elements of an array as text, each followed by a comma and
/// a space.
pub open spec fn items_text(x: Seq<Value>, n: nat) -> Seq<char>
    decreases x, n,
{
    if n == 0 || n > x.len() {
        Seq::empty()
    } else {
        items_text(x, (n - 1) as nat) + display(x[n - 1]) + ", "@
    }
}

/// The first `n` entries of a hashtable as text: key, colon, value, each
/// entry followed by a comma and a space.
pub open spec fn entries_text(x: Seq<(Value, Value)>, n: nat) -> Seq<char>
    decreases x, n,
{
    if n == 0 || n > x.len() {
        Seq::empty()
    } else {
        entries_text(x, (n - 1) as nat) + display(x[n - 1].0) + ": "@ + display(x[n - 1].1) + ", "@
    }
}

/// The text of a digit.
fn digit_text(d: u64) -> (s: &'static str)
    requires
        d <= 9,
    ensures
        s@ == seq![digit(d as int)],
{
    proof {
        reveal_strlit("0");
        reveal_strlit("1");
        reveal_strlit("2");
        reveal_strlit("3");
        reveal_strlit("4");
        reveal_strlit("5");
        reveal_strlit("6");
        reveal_strlit("7");
        reveal_strlit("8");
        reveal_strlit("9");
    }
    let s = if d == 0 {
        "0"
    } else if d == 1 {
        "1"
    } else if d == 2 {
        "2"
    } else if d == 3 {
        "3"
    } else if d == 4 {
        "4"
    } else if d == 5 {
        "5"
    } else if d == 6 {
        "6"
    } else if d == 7 {
        "7"
    } else if d == 8 {
        "8"
    } else {
        "9"
    };
    assert(s@ =~= seq![digit(d as int)]);
    s
}

/// A natural number in decimal.
pub fn natural_to_string(n: u64) -> (s: String)
    ensures
        s@ == natural_text(n as nat),
    decreases n,
{
    if n < 10 {
        digit_text(n).to_string()
    } else {
        let s = natural_to_string(n / 10).concat(digit_text(n % 10));
        assert(s@ =~= natural_text(n as nat));
        s
    }
}

/// An integer in decimal.
pub fn integer_to_string(v: i64) -> (s: String)
    ensures
        s@ == integer_text(v as int),
{
    if v < 0 {
        let magnitude = (-(v as i128)) as u64;
        proof {
            reveal_strlit("-");
        }
        let s = "-".to_string().concat(natural_to_string(magnitude).as_str());
        assert(s@ =~= integer_text(v as int));
        s
    } else {
        natural_to_string(v as u64)
    }
}

impl Object {
    /// This object as text, for people to read.
    pub fn to_string(&self) -> (s: String)
        ensures
            s@ == display(self@),
        decreases self,
    {
        match self {
            Object::Arr(x) => {
                proof {
                    lemma_view_arr(*x);
                }
                let ghost all = values(x@);
                let mut s = "[ ".to_string();
                let mut i: usize = 0;
                while i < x.len()
                    invariant
                        *self == Object::Arr(*x),
                        all == values(x@),
                        i <= x.len(),
                        s@ == "[ "@ + items_text(all, i as nat),
                    decreases x.len() - i,
                {
                    proof {
                        assert(decreases_to!(*self => self->Arr_0@));
                        assert(decreases_to!(x@ => x@[i as int]));
                    }
                    let item = x[i].to_string();
                    s.append(item.as_str());
                    s.append(", ");
                    assert(s@ =~= "[ "@ + items_text(all, (i + 1) as nat)) by {
                        assert(all[i as int] == x@[i as int]@);
                    }
                    i += 1;
                }
                s.append("]");
                s
            },
            Object::Buf(Some(b)) => {
                let mut s = "[ ".to_string();
                let mut i: usize = 0;
                while i < b.len()
                    invariant
                        i <= b.len(),
                        s@ == "[ "@ + bytes_text(b@, i as nat),
                    decreases b.len() - i,
                {
                    let item = natural_to_string(b[i] as u64);
                    s.append(item.as_str());
                    s.append(", ");
                    assert(s@ =~= "[ "@ + bytes_text(b@, (i + 1) as nat));
                    i += 1;
                }
                s.append("]");
                s
            },
            Object::Buf(None) => "null".to_string(),
            Object::Chr(c) => {
                let mut s = natural_to_string((*c as u32 % 256) as u64);
                s.append(" ('");
                s.append(char_text(*c).as_str());
                s.append("')");
                s
            },
            Object::Htb(x) => {
                proof {
                    lemma_view_htb(*x);
                }
                let ghost all = pairs(x@);
                let mut s = "{ ".to_string();
                let mut i: usize = 0;
                while i < x.len()
                    invariant
                        *self == Object::Htb(*x),
                        all == pairs(x@),
                        i <= x.len(),
                        s@ == "{ "@ + entries_text(all, i as nat),
                    decreases x.len() - i,
                {
                    proof {
                        assert(decreases_to!(*self => self->Htb_0@));
                        assert(decreases_to!(x@ => x@[i as int]));
                    }
                    let key = x[i].0.to_string();
                    let value = x[i].1.to_string();
                    s.append(key.as_str());
                    s.append(": ");
                    s.append(value.as_str());
                    s.append(", ");
                    assert(s@ =~= "{ "@ + entries_text(all, (i + 1) as nat)) by {
                        assert(all[i as int] == (x@[i as int].0@, x@[i as int].1@));
                    }
                    i += 1;
                }
                s.append("}");
                s
            },
            Object::Int(i) => integer_to_string(*i as i64),
            Object::Lon(l) => integer_to_string(*l),
            Object::Ptr(Some(p)) => "0x".to_string().concat(p.as_str()),
            Object::Ptr(None) => "0x0".to_string(),
            Object::Str(Some(t)) => {
                let mut s = "\"".to_string();
                s.append(t.as_str());
                s.append("\"");
                s
            },
            Object::Str(None) => "null".to_string(),
            Object::Tim(t) => integer_to_string(*t as i64),
        }
    }
}

} // verus!

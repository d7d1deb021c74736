//! Hdata: a list of records that share their field names.

use vstd::prelude::*;
use vstd::slice::slice_subrange;
use vstd::utf8::{decode_utf8, valid_utf8};
use crate::errors::{malformed, Fault, WeechatError};
use crate::message::Object;
use crate::model::Value;
use crate::parse::Parse;
use crate::split::{lemma_pieces_are_text, split, split_at};
use crate::text::{from_utf8, lemma_text_of_bytes, text_eq};
use crate::wire;

verus! {

/// The byte that separates names.
pub const COMMA: u8 = 0x2c;

/// The byte that separates a key's name from its type.
pub const COLON: u8 = 0x3a;

/// A mapping from field names to values.
pub type Fields = Map<Seq<char>, Value>;

/// The names and values that a list of named objects holds.
pub open spec fn named(fields: Seq<(String, Object)>) -> Seq<(Seq<char>, Value)> {
    Seq::new(fields.len(), |i: int| (fields[i].0@, fields[i].1@))
}

/// The mapping that a list of named values stands for. A name that occurs
/// again overrides.
pub open spec fn mapping(fields: Seq<(Seq<char>, Value)>) -> Fields
    decreases fields.len(),
{
    if fields.len() == 0 {
        Map::empty()
    } else {
        mapping(fields.drop_last()).insert(fields.last().0, fields.last().1)
    }
}

/// No name occurs twice.
pub open spec fn distinct_names(fields: Seq<(Seq<char>, Value)>) -> bool {
    forall|i: int, j: int|
        #![trigger fields[i], fields[j]]
        0 <= i < j < fields.len() ==> fields[i].0 != fields[j].0
}

/// A mapping holds exactly the names that its list holds.
pub proof fn lemma_mapping_names(fields: Seq<(Seq<char>, Value)>, name: Seq<char>)
    ensures
        mapping(fields).contains_key(name) <==> exists|i: int|
            0 <= i < fields.len() && (#[trigger] fields[i]).0 == name,
    decreases fields.len(),
{
    if fields.len() > 0 {
        let front = fields.drop_last();
        lemma_mapping_names(front, name);
        if mapping(fields).contains_key(name) {
            if fields.last().0 == name {
                assert(fields[fields.len() - 1].0 == name);
            } else {
                let i = choose|i: int| 0 <= i < front.len() && (#[trigger] front[i]).0 == name;
                assert(fields[i].0 == name);
            }
        }
        if exists|i: int| 0 <= i < fields.len() && (#[trigger] fields[i]).0 == name {
            let i = choose|i: int| 0 <= i < fields.len() && (#[trigger] fields[i]).0 == name;
            if i < front.len() {
                assert(front[i].0 == name);
            }
        }
    }
}

/// Where names are distinct, a mapping gives each name the value listed with it.
pub proof fn lemma_mapping_value(fields: Seq<(Seq<char>, Value)>, at: int)
    requires
        distinct_names(fields),
        0 <= at < fields.len(),
    ensures
        mapping(fields).contains_key(fields[at].0),
        mapping(fields)[fields[at].0] == fields[at].1,
    decreases fields.len(),
{
    let front = fields.drop_last();
    if at < fields.len() - 1 {
        assert(fields[at].0 != fields[fields.len() - 1].0);
        assert(front[at] == fields[at]);
        assert(distinct_names(front)) by {
            assert forall|i: int, j: int|
                #![trigger front[i], front[j]]
                0 <= i < j < front.len() implies front[i].0 != front[j].0 by {
                assert(fields[i].0 != fields[j].0);
            }
        }
        lemma_mapping_value(front, at);
    }
}

/// Where names are distinct, a mapping has as many names as its list.
pub proof fn lemma_mapping_len(fields: Seq<(Seq<char>, Value)>)
    requires
        distinct_names(fields),
    ensures
        mapping(fields).dom().finite(),
        mapping(fields).dom().len() == fields.len(),
    decreases fields.len(),
{
    if fields.len() > 0 {
        let front = fields.drop_last();
        assert(distinct_names(front)) by {
            assert forall|i: int, j: int|
                #![trigger front[i], front[j]]
                0 <= i < j < front.len() implies front[i].0 != front[j].0 by {
                assert(fields[i].0 != fields[j].0);
            }
        }
        lemma_mapping_len(front);
        lemma_mapping_names(front, fields.last().0);
        if mapping(front).contains_key(fields.last().0) {
            let i = choose|i: int| 0 <= i < front.len() && (#[trigger] front[i]).0 == fields.last().0;
            assert(fields[i].0 != fields[fields.len() - 1].0);
        }
        assert(mapping(fields).dom() =~= mapping(front).dom().insert(fields.last().0));
    }
}

/// Where names are distinct, a new value in one place of the list gives the
/// mapping that value for the name there, and changes nothing else.
pub proof fn lemma_mapping_update(fields: Seq<(Seq<char>, Value)>, at: int, value: Value)
    requires
        distinct_names(fields),
        0 <= at < fields.len(),
    ensures
        mapping(fields.update(at, (fields[at].0, value))) == mapping(fields).insert(
            fields[at].0,
            value,
        ),
    decreases fields.len(),
{
    let name = fields[at].0;
    let after = fields.update(at, (name, value));
    let front = fields.drop_last();
    if at == fields.len() - 1 {
        assert(after.drop_last() =~= front);
        assert(mapping(after) =~= mapping(fields).insert(name, value));
    } else {
        assert(fields[at].0 != fields[fields.len() - 1].0);
        assert(distinct_names(front)) by {
            assert forall|i: int, j: int|
                #![trigger front[i], front[j]]
                0 <= i < j < front.len() implies front[i].0 != front[j].0 by {
                assert(fields[i].0 != fields[j].0);
            }
        }
        lemma_mapping_update(front, at, value);
        assert(front[at] == fields[at]);
        assert(after.drop_last() =~= front.update(at, (name, value)));
        assert(after.last() == fields.last());
        assert(mapping(after) =~= mapping(fields).insert(name, value));
    }
}

/// Gives `name` the value `value` in a list with distinct names: in the
/// place where the name stands, or at the end.
fn set_field(fields: &mut Vec<(String, Object)>, name: String, value: Object)
    requires
        distinct_names(named(old(fields)@)),
    ensures
        distinct_names(named(final(fields)@)),
        mapping(named(final(fields)@)) == mapping(named(old(fields)@)).insert(name@, value@),
{
    let ghost before = named(fields@);
    let mut i: usize = 0;
    while i < fields.len()
        invariant
            i <= fields.len(),
            fields@ == old(fields)@,
            before == named(fields@),
            distinct_names(before),
            forall|k: int| 0 <= k < i ==> (#[trigger] before[k]).0 != name@,
        decreases fields.len() - i,
    {
        if text_eq(fields[i].0.as_str(), name.as_str()) {
            proof {
                lemma_mapping_update(before, i as int, value@);
            }
            let old_field = fields.remove(i);
            fields.insert(i, (old_field.0, value));
            assert(named(fields@) =~= before.update(i as int, (before[i as int].0, value@)));
            assert(distinct_names(named(fields@))) by {
                let now = named(fields@);
                assert forall|a: int, b: int|
                    #![trigger now[a], now[b]]
                    0 <= a < b < now.len() implies now[a].0 != now[b].0 by {
                    assert(now[a].0 == before[a].0);
                    assert(now[b].0 == before[b].0);
                }
            }
            return;
        }
        i += 1;
    }
    fields.push((name, value));
    assert(named(fields@) =~= before.push((name@, value@)));
    assert(before.push((name@, value@)).drop_last() =~= before);
    assert(distinct_names(named(fields@))) by {
        let now = named(fields@);
        assert forall|a: int, b: int|
            #![trigger now[a], now[b]]
            0 <= a < b < now.len() implies now[a].0 != now[b].0 by {
            assert(now[a] == before[a]);
            if b < before.len() {
                assert(now[b] == before[b]);
            }
        }
    }
}

/// One record of an hdata: a mapping from field names to objects.
#[derive(Debug)]
pub struct Record {
    fields: Vec<(String, Object)>,
}

impl View for Record {
    type V = Fields;

    closed spec fn view(&self) -> Fields {
        mapping(named(self.fields@))
    }
}

impl Record {
    #[verifier::type_invariant]
    spec fn names_are_distinct(&self) -> bool {
        distinct_names(named(self.fields@))
    }

    /// A record without fields.
    pub fn new() -> (r: Record)
        ensures
            r@ == Fields::empty(),
    {
        let fields: Vec<(String, Object)> = Vec::new();
        assert(named(fields@) =~= Seq::empty());
        Record { fields }
    }

    /// Gives the field `name` the value `value`, whether the record had such
    /// a field or not.
    pub fn insert(&mut self, name: String, value: Object)
        ensures
            final(self)@ == old(self)@.insert(name@, value@),
    {
        proof {
            use_type_invariant(&*self);
        }
        let mut fields: Vec<(String, Object)> = Vec::new();
        assert(named(fields@) =~= Seq::empty());
        core::mem::swap(&mut self.fields, &mut fields);
        set_field(&mut fields, name, value);
        self.fields = fields;
    }

    /// The number of fields.
    pub fn len(&self) -> (n: usize)
        ensures
            self@.dom().finite(),
            n == self@.dom().len(),
    {
        proof {
            use_type_invariant(self);
            lemma_mapping_len(named(self.fields@));
        }
        self.fields.len()
    }

    /// The value of the field `name`, if the record has one.
    pub fn get(&self, name: &str) -> (r: Option<&Object>)
        ensures
            match r {
                Some(o) => self@.contains_key(name@) && self@[name@] == o@,
                None => !self@.contains_key(name@),
            },
    {
        proof {
            use_type_invariant(self);
        }
        let ghost all = named(self.fields@);
        let mut i: usize = 0;
        while i < self.fields.len()
            invariant
                i <= self.fields.len(),
                all == named(self.fields@),
                distinct_names(all),
                forall|k: int| 0 <= k < i ==> (#[trigger] all[k]).0 != name@,
            decreases self.fields.len() - i,
        {
            if text_eq(self.fields[i].0.as_str(), name) {
                proof {
                    lemma_mapping_value(all, i as int);
                }
                return Some(&self.fields[i].1);
            }
            i += 1;
        }
        proof {
            lemma_mapping_names(all, name@);
        }
        None
    }
}

/// The values of the path pointers of one record: for each path name, in
/// order, one pointer, kept under that name in `done`.
pub open spec fn pointers(paths: Seq<Seq<u8>>, b: Seq<u8>, done: Fields) -> Result<
    (Fields, nat),
    Fault,
>
    decreases paths.len(),
{
    if paths.len() == 0 {
        Ok((done, 0))
    } else {
        match wire::pointer(b) {
            Err(e) => Err(e),
            Ok((v, n)) => wire::shifted(
                pointers(paths.drop_first(), wire::rest(b, n), done.insert(decode_utf8(paths[0]), v)),
                n,
            ),
        }
    }
}

/// The values of the keys of one record: for each `name:type`, in order, one
/// object of that type, kept under that name in `done`.
pub open spec fn keyed(keys: Seq<Seq<u8>>, b: Seq<u8>, done: Fields) -> Result<(Fields, nat), Fault>
    decreases keys.len(),
{
    if keys.len() == 0 {
        Ok((done, 0))
    } else if split(keys[0], COLON).len() < 2 {
        Err(malformed("Key has no type"))
    } else {
        match wire::object(split(keys[0], COLON)[1], b) {
            Err(e) => Err(e),
            Ok((v, n)) => wire::shifted(
                keyed(
                    keys.drop_first(),
                    wire::rest(b, n),
                    done.insert(decode_utf8(split(keys[0], COLON)[0]), v),
                ),
                n,
            ),
        }
    }
}

/// One record: its path pointers, then its keys.
#[verifier::opaque]
pub open spec fn record(paths: Seq<Seq<u8>>, keys: Seq<Seq<u8>>, b: Seq<u8>) -> Result<
    (Fields, nat),
    Fault,
> {
    match pointers(paths, b, Map::empty()) {
        Err(e) => Err(e),
        Ok((fields, n)) => wire::shifted(keyed(keys, wire::rest(b, n), fields), n),
    }
}

/// `count` records, one after the other, added to those in `done`.
pub open spec fn records(
    paths: Seq<Seq<u8>>,
    keys: Seq<Seq<u8>>,
    b: Seq<u8>,
    count: int,
    done: Seq<Fields>,
) -> Result<(Seq<Fields>, nat), Fault>
    decreases count,
{
    if count <= 0 {
        Ok((done, 0))
    } else {
        match record(paths, keys, b) {
            Err(e) => Err(e),
            Ok((fields, n)) => wire::shifted(
                records(paths, keys, wire::rest(b, n), count - 1, done.push(fields)),
                n,
            ),
        }
    }
}

/// What the records of an hdata come to: they must have taken up all of the
/// `len` bytes, of which `before` came before them.
pub open spec fn finished(r: Result<(Seq<Fields>, nat), Fault>, before: nat, len: nat) -> Result<
    Seq<Fields>,
    Fault,
> {
    match r {
        Err(e) => Err(e),
        Ok((all, n)) => if before + n == len {
            Ok(all)
        } else {
            Err(malformed("Not all bytes in message consumed"))
        },
    }
}

/// The body of an hdata, from the bytes that follow its tag: a string of
/// path names between commas, a string of `name:type` keys between commas,
/// a four-byte count, and that many records. The records must take up all
/// of the bytes.
///
/// The strings are split as bytes. Commas and colons are ASCII, so the
/// pieces spell what the pieces of the text are: see
/// [`split_of_text_is_split_of_bytes`](crate::split::split_of_text_is_split_of_bytes).
#[verifier::opaque]
pub open spec fn hdata(b: Seq<u8>) -> Result<Seq<Fields>, Fault> {
    match wire::text(b) {
        Err(e) => Err(e),
        Ok((None, _)) => Err(malformed("String is null")),
        Ok((Some(paths), n1)) => match wire::text(wire::rest(b, n1)) {
            Err(e) => Err(e),
            Ok((None, _)) => Err(malformed("String is null")),
            Ok((Some(keys), n2)) => match wire::integer(wire::rest(b, n1 + n2)) {
                Err(e) => Err(e),
                Ok((count, n3)) => finished(
                    records(
                        split(paths, COMMA),
                        split(keys, COMMA),
                        wire::rest(b, n1 + n2 + n3),
                        count->Int_0,
                        Seq::empty(),
                    ),
                    n1 + n2 + n3,
                    b.len(),
                ),
            },
        },
    }
}

/// What `pointers` comes to once the pointer at the front is decoded: that
/// pointer's fault, or what the pointers behind it come to.
pub proof fn lemma_pointers_step(paths: Seq<Seq<u8>>, at: int, b: Seq<u8>, pos: nat, done: Fields)
    requires
        0 <= at < paths.len(),
        pos <= b.len(),
    ensures
        match wire::pointer(b.skip(pos as int)) {
            Err(e) => pointers(paths.skip(at), b.skip(pos as int), done) == Err::<
                (Fields, nat),
                Fault,
            >(e),
            Ok((v, n)) => pos + n <= b.len() && wire::shifted(
                pointers(paths.skip(at), b.skip(pos as int), done),
                pos,
            ) == wire::shifted(
                pointers(
                    paths.skip(at + 1),
                    b.skip((pos + n) as int),
                    done.insert(decode_utf8(paths[at]), v),
                ),
                pos + n,
            ),
        },
{
    assert(paths.skip(at)[0] == paths[at]);
    assert(paths.skip(at).drop_first() =~= paths.skip(at + 1));
    if let Ok((v, n)) = wire::pointer(b.skip(pos as int)) {
        assert(wire::rest(b.skip(pos as int), n) =~= b.skip((pos + n) as int));
    }
}

/// What `keyed` comes to once the key at the front is decoded: the fault of
/// a key without a type or of its value, or what the keys behind it come to.
pub proof fn lemma_keyed_step(keys: Seq<Seq<u8>>, at: int, b: Seq<u8>, pos: nat, done: Fields)
    requires
        0 <= at < keys.len(),
        pos <= b.len(),
    ensures
        split(keys[at], COLON).len() < 2 ==> keyed(keys.skip(at), b.skip(pos as int), done) == Err::<
            (Fields, nat),
            Fault,
        >(malformed("Key has no type")),
        split(keys[at], COLON).len() >= 2 ==> match wire::object(
            split(keys[at], COLON)[1],
            b.skip(pos as int),
        ) {
            Err(e) => keyed(keys.skip(at), b.skip(pos as int), done) == Err::<(Fields, nat), Fault>(
                e,
            ),
            Ok((v, n)) => pos + n <= b.len() && wire::shifted(
                keyed(keys.skip(at), b.skip(pos as int), done),
                pos,
            ) == wire::shifted(
                keyed(
                    keys.skip(at + 1),
                    b.skip((pos + n) as int),
                    done.insert(decode_utf8(split(keys[at], COLON)[0]), v),
                ),
                pos + n,
            ),
        },
{
    assert(keys.skip(at)[0] == keys[at]);
    assert(keys.skip(at).drop_first() =~= keys.skip(at + 1));
    if split(keys[at], COLON).len() >= 2 {
        wire::lemma_object_ends(split(keys[at], COLON)[1], b.skip(pos as int));
        if let Ok((v, n)) = wire::object(split(keys[at], COLON)[1], b.skip(pos as int)) {
            assert(wire::rest(b.skip(pos as int), n) =~= b.skip((pos + n) as int));
        }
    }
}

/// What `records` comes to once the record at the front is decoded: that
/// record's fault, or what the records behind it come to.
pub proof fn lemma_records_step(
    paths: Seq<Seq<u8>>,
    keys: Seq<Seq<u8>>,
    b: Seq<u8>,
    pos: nat,
    count: int,
    done: Seq<Fields>,
)
    requires
        pos <= b.len(),
        count > 0,
    ensures
        match record(paths, keys, b.skip(pos as int)) {
            Err(e) => records(paths, keys, b.skip(pos as int), count, done) == Err::<
                (Seq<Fields>, nat),
                Fault,
            >(e),
            Ok((fields, n)) => n <= b.len() - pos ==> wire::shifted(
                records(paths, keys, b.skip(pos as int), count, done),
                pos,
            ) == wire::shifted(
                records(paths, keys, b.skip((pos + n) as int), count - 1, done.push(fields)),
                pos + n,
            ),
        },
{
    if let Ok((fields, n)) = record(paths, keys, b.skip(pos as int)) {
        if n <= b.len() - pos {
            assert(wire::rest(b.skip(pos as int), n) =~= b.skip((pos + n) as int));
        }
    }
}

/// The byte strings that a list of slices holds.
pub open spec fn pieces(v: Seq<&[u8]>) -> Seq<Seq<u8>> {
    Seq::new(v.len(), |i: int| v[i]@)
}

/// Every one of the byte strings is well-formed UTF-8.
pub open spec fn all_text(v: Seq<Seq<u8>>) -> bool {
    forall|k: int| 0 <= k < v.len() ==> valid_utf8(#[trigger] v[k])
}

/// The text that the bytes of a name spell.
fn name_of(piece: &[u8]) -> (name: String)
    requires
        valid_utf8(piece@),
    ensures
        name@ == decode_utf8(piece@),
{
    match from_utf8(piece) {
        Ok(s) => {
            proof {
                lemma_text_of_bytes(s, piece@);
            }
            s.to_string()
        },
        Err(_) => unreached(),
    }
}

/// Decodes the path pointers of one record into `record`, and says how
/// many bytes they took up.
fn read_pointers(paths: &Vec<&[u8]>, bytes: &[u8], record: &mut Record) -> (r: Result<
    usize,
    WeechatError,
>)
    requires
        all_text(pieces(paths@)),
    ensures
        match r {
            Ok(n) => n <= bytes@.len() && pointers(pieces(paths@), bytes@, old(record)@) == Ok::<
                (Fields, nat),
                Fault,
            >((final(record)@, n as nat)),
            Err(e) => pointers(pieces(paths@), bytes@, old(record)@) == Err::<(Fields, nat), Fault>(
                e@,
            ),
        },
{
    let ghost all = pieces(paths@);
    let ghost whole = pointers(all, bytes@, record@);
    let mut pos: usize = 0;
    let mut j: usize = 0;
    assert(all.skip(0) =~= all);
    assert(bytes@.skip(0) =~= bytes@);
    while j < paths.len()
        invariant
            j <= paths.len(),
            pos <= bytes.len(),
            all == pieces(paths@),
            all_text(all),
            whole == pointers(all, bytes@, old(record)@),
            whole == wire::shifted(
                pointers(all.skip(j as int), bytes@.skip(pos as int), record@),
                pos as nat,
            ),
        decreases paths.len() - j,
    {
        let remaining = slice_subrange(bytes, pos, bytes.len());
        proof {
            assert(remaining@ =~= bytes@.skip(pos as int));
            lemma_pointers_step(all, j as int, bytes@, pos as nat, record@);
            assert(valid_utf8(all[j as int]));
        }
        let parsed = match Parse::pointer(remaining) {
            Ok(parsed) => parsed,
            Err(e) => {
                return Err(e);
            },
        };
        record.insert(name_of(paths[j]), parsed.object);
        pos += parsed.bytes_read;
        j += 1;
    }
    Ok(pos)
}

/// Decodes the keys of one record into `record`, and says how many bytes
/// they took up.
fn read_keys(keys: &Vec<&[u8]>, bytes: &[u8], record: &mut Record) -> (r: Result<
    usize,
    WeechatError,
>)
    requires
        all_text(pieces(keys@)),
    ensures
        match r {
            Ok(n) => n <= bytes@.len() && keyed(pieces(keys@), bytes@, old(record)@) == Ok::<
                (Fields, nat),
                Fault,
            >((final(record)@, n as nat)),
            Err(e) => keyed(pieces(keys@), bytes@, old(record)@) == Err::<(Fields, nat), Fault>(e@),
        },
{
    let ghost all = pieces(keys@);
    let ghost whole = keyed(all, bytes@, record@);
    let mut pos: usize = 0;
    let mut j: usize = 0;
    assert(all.skip(0) =~= all);
    assert(bytes@.skip(0) =~= bytes@);
    while j < keys.len()
        invariant
            j <= keys.len(),
            pos <= bytes.len(),
            all == pieces(keys@),
            all_text(all),
            whole == keyed(all, bytes@, old(record)@),
            whole == wire::shifted(
                keyed(all.skip(j as int), bytes@.skip(pos as int), record@),
                pos as nat,
            ),
        decreases keys.len() - j,
    {
        let remaining = slice_subrange(bytes, pos, bytes.len());
        proof {
            assert(remaining@ =~= bytes@.skip(pos as int));
            lemma_keyed_step(all, j as int, bytes@, pos as nat, record@);
            assert(valid_utf8(all[j as int]));
            lemma_pieces_are_text(all[j as int], COLON);
        }
        let parts = split_at(keys[j], COLON);
        if parts.len() < 2 {
            return Err(WeechatError::parse("Key has no type"));
        }
        let parsed = match Parse::tagged(parts[1], remaining) {
            Ok(parsed) => parsed,
            Err(e) => {
                return Err(e);
            },
        };
        record.insert(name_of(parts[0]), parsed.object);
        pos += parsed.bytes_read;
        j += 1;
    }
    Ok(pos)
}

/// Decodes one record, and says how many bytes it took up.
fn read_record(paths: &Vec<&[u8]>, keys: &Vec<&[u8]>, bytes: &[u8]) -> (r: Result<
    (Record, usize),
    WeechatError,
>)
    requires
        all_text(pieces(paths@)),
        all_text(pieces(keys@)),
    ensures
        match r {
            Ok((fields, n)) => n <= bytes@.len() && record(pieces(paths@), pieces(keys@), bytes@)
                == Ok::<(Fields, nat), Fault>((fields@, n as nat)),
            Err(e) => record(pieces(paths@), pieces(keys@), bytes@) == Err::<(Fields, nat), Fault>(
                e@,
            ),
        },
{
    proof {
        reveal(record);
    }
    let mut fields = Record::new();
    let n = match read_pointers(paths, bytes, &mut fields) {
        Ok(n) => n,
        Err(e) => {
            return Err(e);
        },
    };
    let remaining = slice_subrange(bytes, n, bytes.len());
    assert(remaining@ =~= wire::rest(bytes@, n as nat));
    let m = match read_keys(keys, remaining, &mut fields) {
        Ok(m) => m,
        Err(e) => {
            return Err(e);
        },
    };
    Ok((fields, n + m))
}

/// Decodes `count` records, one after the other, and says how many bytes
/// they took up.
fn read_records(paths: &Vec<&[u8]>, keys: &Vec<&[u8]>, bytes: &[u8], count: i32) -> (r: Result<
    (Vec<Record>, usize),
    WeechatError,
>)
    requires
        all_text(pieces(paths@)),
        all_text(pieces(keys@)),
    ensures
        match r {
            Ok((data, n)) => n <= bytes@.len() && records(
                pieces(paths@),
                pieces(keys@),
                bytes@,
                count as int,
                Seq::empty(),
            ) == Ok::<(Seq<Fields>, nat), Fault>((mappings(data@), n as nat)),
            Err(e) => records(pieces(paths@), pieces(keys@), bytes@, count as int, Seq::empty())
                == Err::<(Seq<Fields>, nat), Fault>(e@),
        },
{
    let ghost whole = records(pieces(paths@), pieces(keys@), bytes@, count as int, Seq::empty());
    let mut data: Vec<Record> = Vec::new();
    let mut pos: usize = 0;
    let mut i: i32 = 0;
    assert(mappings(data@) =~= Seq::empty());
    assert(bytes@.skip(0) =~= bytes@);
    while i < count
        invariant
            pos <= bytes.len(),
            0 <= i,
            all_text(pieces(paths@)),
            all_text(pieces(keys@)),
            whole == records(pieces(paths@), pieces(keys@), bytes@, count as int, Seq::empty()),
            whole == wire::shifted(
                records(
                    pieces(paths@),
                    pieces(keys@),
                    bytes@.skip(pos as int),
                    count - i,
                    mappings(data@),
                ),
                pos as nat,
            ),
        decreases count - i,
    {
        let remaining = slice_subrange(bytes, pos, bytes.len());
        proof {
            assert(remaining@ =~= bytes@.skip(pos as int));
            lemma_records_step(
                pieces(paths@),
                pieces(keys@),
                bytes@,
                pos as nat,
                count - i,
                mappings(data@),
            );
        }
        let (fields, n) = match read_record(paths, keys, remaining) {
            Ok(read) => read,
            Err(e) => {
                return Err(e);
            },
        };
        proof {
            assert(mappings(data@.push(fields)) =~= mappings(data@).push(fields@));
        }
        pos += n;
        data.push(fields);
        i += 1;
    }
    Ok((data, pos))
}

/// A list of records received from the relay, each a mapping from the
/// names of its paths and keys to their values.
#[derive(Debug)]
pub struct HData {
    pub data: Vec<Record>,
}

/// The mappings that a list of records holds.
pub open spec fn mappings(data: Seq<Record>) -> Seq<Fields> {
    Seq::new(data.len(), |i: int| data[i]@)
}

impl View for HData {
    type V = Seq<Fields>;

    open spec fn view(&self) -> Seq<Fields> {
        mappings(self.data@)
    }
}

impl HData {
    /// Decodes the body of an hdata from the bytes that follow its `hda` tag.
    pub fn new(bytes: &[u8]) -> (r: Result<HData, WeechatError>)
        ensures
            match r {
                Ok(h) => hdata(bytes@) == Ok::<Seq<Fields>, Fault>(h@),
                Err(e) => hdata(bytes@) == Err::<Seq<Fields>, Fault>(e@),
            },
    {
        proof {
            reveal(hdata);
        }
        // The names of the paths.
        let parsed_paths = match Parse::string(bytes) {
            Ok(parsed) => parsed,
            Err(e) => {
                return Err(e);
            },
        };
        let paths = match parsed_paths.object.as_not_null_str() {
            Ok(paths) => paths,
            Err(e) => {
                return Err(e);
            },
        };
        let ghost path_bytes = wire::text(bytes@)->Ok_0.0->Some_0;
        proof {
            vstd::utf8::decode_utf8_encode_utf8(path_bytes);
            lemma_pieces_are_text(path_bytes, COMMA);
        }
        let paths = split_at(paths.as_bytes(), COMMA);
        assert(pieces(paths@) =~= split(path_bytes, COMMA));
        let mut pos: usize = parsed_paths.bytes_read;

        // The names and types of the keys.
        let remaining = slice_subrange(bytes, pos, bytes.len());
        assert(remaining@ =~= wire::rest(bytes@, pos as nat));
        let parsed_keys = match Parse::string(remaining) {
            Ok(parsed) => parsed,
            Err(e) => {
                return Err(e);
            },
        };
        let keys = match parsed_keys.object.as_not_null_str() {
            Ok(keys) => keys,
            Err(e) => {
                return Err(e);
            },
        };
        let ghost key_bytes = wire::text(remaining@)->Ok_0.0->Some_0;
        proof {
            vstd::utf8::decode_utf8_encode_utf8(key_bytes);
            lemma_pieces_are_text(key_bytes, COMMA);
        }
        let keys = split_at(keys.as_bytes(), COMMA);
        assert(pieces(keys@) =~= split(key_bytes, COMMA));
        pos += parsed_keys.bytes_read;

        // The number of records.
        let remaining = slice_subrange(bytes, pos, bytes.len());
        assert(remaining@ =~= wire::rest(bytes@, pos as nat));
        let parsed_count = match Parse::integer(remaining) {
            Ok(parsed) => parsed,
            Err(e) => {
                return Err(e);
            },
        };
        let count = match parsed_count.object.as_integer() {
            Ok(count) => count,
            Err(e) => {
                return Err(e);
            },
        };
        pos += parsed_count.bytes_read;

        // The records.
        let remaining = slice_subrange(bytes, pos, bytes.len());
        assert(remaining@ =~= wire::rest(bytes@, pos as nat));
        let (data, n) = match read_records(&paths, &keys, remaining, count) {
            Ok(read) => read,
            Err(e) => {
                return Err(e);
            },
        };
        pos += n;
        if bytes.len() != pos {
            Err(WeechatError::parse("Not all bytes in message consumed"))
        } else {
            Ok(HData { data })
        }
    }
}

/// Decoding the path pointers of a record fails with a parse error or not
/// at all.
pub proof fn lemma_pointers_fault(paths: Seq<Seq<u8>>, b: Seq<u8>, done: Fields)
    ensures
        wire::fails_as_parse(pointers(paths, b, done)),
    decreases paths.len(),
{
    if paths.len() > 0 {
        if let Ok((v, n)) = wire::pointer(b) {
            lemma_pointers_fault(
                paths.drop_first(),
                wire::rest(b, n),
                done.insert(decode_utf8(paths[0]), v),
            );
        }
    }
}

/// Decoding the keys of a record fails with a parse error or not at all.
pub proof fn lemma_keyed_fault(keys: Seq<Seq<u8>>, b: Seq<u8>, done: Fields)
    ensures
        wire::fails_as_parse(keyed(keys, b, done)),
    decreases keys.len(),
{
    if keys.len() > 0 && split(keys[0], COLON).len() >= 2 {
        wire::lemma_object_fault(split(keys[0], COLON)[1], b);
        if let Ok((v, n)) = wire::object(split(keys[0], COLON)[1], b) {
            lemma_keyed_fault(
                keys.drop_first(),
                wire::rest(b, n),
                done.insert(decode_utf8(split(keys[0], COLON)[0]), v),
            );
        }
    }
}

/// Decoding records fails with a parse error or not at all.
pub proof fn lemma_records_fault(
    paths: Seq<Seq<u8>>,
    keys: Seq<Seq<u8>>,
    b: Seq<u8>,
    count: int,
    done: Seq<Fields>,
)
    ensures
        wire::fails_as_parse(records(paths, keys, b, count, done)),
    decreases count,
{
    reveal(record);
    if count > 0 {
        lemma_pointers_fault(paths, b, Map::empty());
        if let Ok((fields, n)) = pointers(paths, b, Map::empty()) {
            lemma_keyed_fault(keys, wire::rest(b, n), fields);
        }
        if let Ok((fields, n)) = record(paths, keys, b) {
            lemma_records_fault(paths, keys, wire::rest(b, n), count - 1, done.push(fields));
        }
    }
}

/// Decoding an hdata fails with a parse error or not at all.
pub proof fn lemma_hdata_fault(b: Seq<u8>)
    ensures
        wire::fails_as_parse(hdata(b)),
{
    reveal(hdata);
    if let Ok((Some(paths), n1)) = wire::text(b) {
        if let Ok((Some(keys), n2)) = wire::text(wire::rest(b, n1)) {
            if let Ok((count, n3)) = wire::integer(wire::rest(b, n1 + n2)) {
                lemma_records_fault(
                    split(paths, COMMA),
                    split(keys, COMMA),
                    wire::rest(b, n1 + n2 + n3),
                    count->Int_0,
                    Seq::empty(),
                );
            }
        }
    }
}

} // verus!

//! Splitting strings at a separator.

use vstd::prelude::*;

verus! {

/// The number of items of `s` before the first `sep`; all of them where
/// there is none.
pub open spec fn run<T>(s: Seq<T>, sep: T) -> int
    decreases s.len(),
{
    if s.len() == 0 || s[0] == sep {
        0
    } else {
        1 + run(s.skip(1), sep)
    }
}

/// The pieces of `s` between occurrences of `sep`. There is one piece more
/// than there are separators, so the empty string has one empty piece.
pub open spec fn split<T>(s: Seq<T>, sep: T) -> Seq<Seq<T>>
    decreases s.len(),
{
    if run(s, sep) >= s.len() {
        seq![s]
    } else {
        proof {
            lemma_run(s, sep);
        }
        seq![s.take(run(s, sep))] + split(s.skip(run(s, sep) + 1), sep)
    }
}

/// The first run ends inside the string or at its end, holds no separator,
/// and ends at one if it ends inside.
pub proof fn lemma_run<T>(s: Seq<T>, sep: T)
    ensures
        0 <= run(s, sep) <= s.len(),
        forall|k: int| 0 <= k < run(s, sep) ==> s[k] != sep,
        run(s, sep) < s.len() ==> s[run(s, sep)] == sep,
    decreases s.len(),
{
    if s.len() == 0 || s[0] == sep {
    } else {
        lemma_run(s.skip(1), sep);
        assert forall|k: int| 0 <= k < run(s, sep) implies s[k] != sep by {
            if k > 0 {
                assert(s.skip(1)[k - 1] == s[k]);
            }
        }
    }
}

/// Where the first `n` items hold no separator, the first run is `n` items
/// long if a separator or the end follows them.
pub proof fn lemma_run_found<T>(s: Seq<T>, sep: T, n: int)
    requires
        0 <= n <= s.len(),
        forall|k: int| 0 <= k < n ==> s[k] != sep,
        n == s.len() || s[n] == sep,
    ensures
        run(s, sep) == n,
    decreases n,
{
    if n > 0 {
        let t = s.skip(1);
        assert forall|k: int| 0 <= k < n - 1 implies t[k] != sep by {
            assert(t[k] == s[k + 1]);
        }
        lemma_run_found(t, sep, n - 1);
    }
}

/// The pieces of a byte string, as slices of it.
pub fn split_at(s: &[u8], sep: u8) -> (pieces: Vec<&[u8]>)
    ensures
        pieces@.len() == split(s@, sep).len(),
        forall|k: int| 0 <= k < pieces@.len() ==> (#[trigger] pieces@[k])@ == split(s@, sep)[k],
{
    let mut pieces: Vec<&[u8]> = Vec::new();
    let mut start: usize = 0;
    let mut i: usize = 0;
    let ghost mut done: Seq<Seq<u8>> = Seq::empty();
    assert(s@.skip(0) =~= s@);
    loop
        invariant_except_break
            start <= i <= s.len(),
            forall|k: int| start <= k < i ==> s@[k] != sep,
            pieces@.len() == done.len(),
            forall|k: int| 0 <= k < pieces@.len() ==> (#[trigger] pieces@[k])@ == done[k],
            split(s@, sep) == done + split(s@.skip(start as int), sep),
        ensures
            pieces@.len() == split(s@, sep).len(),
            forall|k: int|
                0 <= k < pieces@.len() ==> (#[trigger] pieces@[k])@ == split(s@, sep)[k],
        decreases s.len() - i,
    {
        let ghost tail = s@.skip(start as int);
        if i == s.len() {
            let piece = vstd::slice::slice_subrange(s, start, i);
            proof {
                lemma_run_found(tail, sep, i - start);
                assert(piece@ =~= tail);
                assert(split(tail, sep) =~= seq![tail]);
            }
            pieces.push(piece);
            break ;
        }
        if s[i] == sep {
            let piece = vstd::slice::slice_subrange(s, start, i);
            proof {
                lemma_run_found(tail, sep, i - start);
                assert(piece@ =~= tail.take(i - start));
                assert(tail.skip(i - start + 1) =~= s@.skip(i + 1));
                assert(done + (seq![piece@] + split(s@.skip(i + 1), sep)) =~= done.push(piece@)
                    + split(s@.skip(i + 1), sep));
                done = done.push(piece@);
            }
            pieces.push(piece);
            start = i + 1;
        }
        i += 1;
    }
    pieces
}

/// Cutting well-formed UTF-8 at an ASCII byte leaves well-formed UTF-8 on
/// both sides of it.
pub proof fn lemma_cut_at_ascii(s: Seq<u8>, at: int)
    requires
        vstd::utf8::valid_utf8(s),
        0 <= at < s.len(),
        s[at] < 0x80,
    ensures
        vstd::utf8::valid_utf8(s.take(at)),
        vstd::utf8::valid_utf8(s.skip(at + 1)),
{
    vstd::utf8::is_char_boundary_iff_not_is_continuation_byte(s, at);
    vstd::utf8::valid_utf8_split(s, at);
    let tail = s.subrange(at, s.len() as int);
    assert(tail[0] == s[at]);
    assert(vstd::utf8::pop_first_scalar(tail) =~= s.skip(at + 1));
    assert(s.take(at) =~= s.subrange(0, at));
}

/// Every piece of well-formed UTF-8 that was split at an ASCII separator is
/// well-formed UTF-8.
pub proof fn lemma_pieces_are_text(s: Seq<u8>, sep: u8)
    requires
        vstd::utf8::valid_utf8(s),
        sep < 0x80,
    ensures
        forall|k: int|
            0 <= k < split(s, sep).len() ==> vstd::utf8::valid_utf8(#[trigger] split(s, sep)[k]),
    decreases s.len(),
{
    lemma_run(s, sep);
    let n = run(s, sep);
    if n < s.len() {
        lemma_cut_at_ascii(s, n);
        lemma_pieces_are_text(s.skip(n + 1), sep);
        let later = split(s.skip(n + 1), sep);
        assert forall|k: int| 0 <= k < split(s, sep).len() implies vstd::utf8::valid_utf8(
            #[trigger] split(s, sep)[k],
        ) by {
            if k > 0 {
                assert(split(s, sep)[k] == later[k - 1]);
            }
        }
    }
}

/// The character that the first scalar of well-formed UTF-8 spells is the
/// first byte where that is ASCII, and no ASCII character where it is not.
proof fn lemma_first_char(b: Seq<u8>)
    requires
        vstd::utf8::valid_utf8(b),
        b.len() > 0,
    ensures
        b[0] < 0x80 ==> vstd::utf8::decode_utf8(b)[0] == b[0] as char
            && vstd::utf8::pop_first_scalar(b) == b.skip(1),
        b[0] >= 0x80 ==> vstd::utf8::decode_utf8(b)[0] as u32 >= 0x80 && forall|k: int|
            0 <= k < vstd::utf8::length_of_first_scalar(b) ==> #[trigger] b[k] >= 0x80,
        vstd::utf8::decode_utf8(b).len() > 0,
        1 <= vstd::utf8::length_of_first_scalar(b) <= b.len(),
        vstd::utf8::decode_utf8(b).skip(1) == vstd::utf8::decode_utf8(
            vstd::utf8::pop_first_scalar(b),
        ),
{
    let first = vstd::utf8::decode_first_scalar(b);
    let b0 = b[0];
    assert(vstd::utf8::decode_utf8(b).skip(1) =~= vstd::utf8::decode_utf8(
        vstd::utf8::pop_first_scalar(b),
    ));
    if b0 < 0x80 {
        assert((b0 & 0x7f) as u32 == b0 as u32) by (bit_vector)
            requires
                b0 < 0x80,
        ;
        assert(vstd::utf8::pop_first_scalar(b) =~= b.skip(1));
    } else {
        assert(first >= 0x80);
        assert(first <= 0x10ffff) by {
            let b1 = b[1];
            if vstd::utf8::is_leading_byte_width_2(b0) {
                assert(((b0 & 0x1f) as u32) << 6 | (b1 & 0x3f) as u32 <= 0x10ffff) by (bit_vector);
            } else if vstd::utf8::is_leading_byte_width_3(b0) {
                let b2 = b[2];
                assert(((b0 & 0x0f) as u32) << 12 | ((b1 & 0x3f) as u32) << 6 | (b2 & 0x3f) as u32
                    <= 0x10ffff) by (bit_vector);
            }
        }
    }
}

/// Well-formed UTF-8 without an ASCII byte `sep` spells text without the
/// character `sep`.
proof fn lemma_no_byte_no_char(b: Seq<u8>, sep: u8)
    requires
        vstd::utf8::valid_utf8(b),
        sep < 0x80,
        forall|k: int| 0 <= k < b.len() ==> b[k] != sep,
    ensures
        forall|k: int|
            0 <= k < vstd::utf8::decode_utf8(b).len() ==> vstd::utf8::decode_utf8(b)[k]
                != sep as char,
    decreases b.len(),
{
    if b.len() > 0 {
        lemma_first_char(b);
        let tail = vstd::utf8::pop_first_scalar(b);
        let n = vstd::utf8::length_of_first_scalar(b);
        assert forall|k: int| 0 <= k < tail.len() implies tail[k] != sep by {
            assert(tail[k] == b[k + n]);
        }
        lemma_no_byte_no_char(tail, sep);
        let text = vstd::utf8::decode_utf8(b);
        assert forall|k: int| 0 <= k < text.len() implies text[k] != sep as char by {
            if k > 0 {
                assert(text.skip(1)[k - 1] == text[k]);
            } else {
                assert(b[0] != sep);
            }
        }
    }
}

/// Text splits at an ASCII character as its UTF-8 encoding splits at that
/// byte: the pieces of the text are what the pieces of the bytes spell.
pub proof fn split_of_text_is_split_of_bytes(b: Seq<u8>, sep: u8)
    requires
        vstd::utf8::valid_utf8(b),
        sep < 0x80,
    ensures
        split(vstd::utf8::decode_utf8(b), sep as char).len() == split(b, sep).len(),
        forall|k: int|
            0 <= k < split(b, sep).len() ==> #[trigger] split(
                vstd::utf8::decode_utf8(b),
                sep as char,
            )[k] == vstd::utf8::decode_utf8(split(b, sep)[k]),
    decreases b.len(),
{
    let text = vstd::utf8::decode_utf8(b);
    let mark = sep as char;
    lemma_run(b, sep);
    let n = run(b, sep);
    let head = b.take(n);
    if n >= b.len() {
        assert(head =~= b);
        lemma_no_byte_no_char(b, sep);
        lemma_run_found(text, mark, text.len() as int);
    } else {
        let tail = b.skip(n + 1);
        lemma_cut_at_ascii(b, n);
        vstd::utf8::is_char_boundary_iff_not_is_continuation_byte(b, n);
        vstd::utf8::valid_utf8_split(b, n);
        vstd::utf8::decode_utf8_split(b, n);
        let from_mark = b.subrange(n, b.len() as int);
        assert(head =~= b.subrange(0, n));
        assert(from_mark[0] == sep);
        lemma_first_char(from_mark);
        assert(from_mark.skip(1) =~= tail);
        lemma_no_byte_no_char(head, sep);
        let m = vstd::utf8::decode_utf8(head).len() as int;
        assert(text =~= vstd::utf8::decode_utf8(head) + vstd::utf8::decode_utf8(from_mark));
        assert(text[m] == mark) by {
            assert(vstd::utf8::decode_utf8(from_mark)[0] == mark);
        }
        lemma_run_found(text, mark, m);
        assert(text.take(m) =~= vstd::utf8::decode_utf8(head));
        assert(text.skip(m + 1) =~= vstd::utf8::decode_utf8(tail)) by {
            assert(vstd::utf8::decode_utf8(from_mark).skip(1) == vstd::utf8::decode_utf8(tail));
        }
        split_of_text_is_split_of_bytes(tail, sep);
        let pieces = split(b, sep);
        let words = split(text, mark);
        assert forall|k: int| 0 <= k < pieces.len() implies #[trigger] words[k]
            == vstd::utf8::decode_utf8(pieces[k]) by {
            if k > 0 {
                assert(pieces[k] == split(tail, sep)[k - 1]);
                assert(words[k] == split(vstd::utf8::decode_utf8(tail), mark)[k - 1]);
            }
        }
    }
}

} // verus!

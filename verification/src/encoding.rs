//! Texts in addresses: percent signs for what an address cannot hold.
use vstd::prelude::*;
use vstd::string::*;
use vstd::utf8::encode_utf8;

use crate::text::{chars_of, utf8_lossy};

verus! {

/// Whether a byte is an ASCII letter or digit.
pub open spec fn is_alnum_byte(b: u8) -> bool {
    97 <= b <= 122 || 65 <= b <= 90 || 48 <= b <= 57
}

/// A hexadecimal digit.
pub open spec fn hex_digit(d: int) -> char {
    if d < 10 {
        (48 + d) as char
    } else {
        (55 + d) as char
    }
}

/// A byte in an address.
pub open spec fn coded_byte(b: u8) -> Seq<char> {
    if is_alnum_byte(b) {
        seq![b as char]
    } else {
        seq!['%', hex_digit(b as int / 16), hex_digit(b as int % 16)]
    }
}

/// Bytes in an address.
pub open spec fn coded(b: Seq<u8>) -> Seq<char>
    decreases b.len(),
{
    if b.len() == 0 {
        Seq::empty()
    } else {
        coded_byte(b[0]) + coded(b.drop_first())
    }
}

/// `percent_encoding::utf8_percent_encode` with `percent_encoding::NON_ALPHANUMERIC`: each
/// byte of the text that is no ASCII letter or digit becomes a percent sign and two
/// hexadecimal digits.
#[verifier::external_body]
pub(crate) fn encode(s: &str) -> (r: String)
    ensures
        r@ == coded(encode_utf8(s@)),
{
    percent_encoding::utf8_percent_encode(s, percent_encoding::NON_ALPHANUMERIC).to_string()
}

/// The value of a hexadecimal digit.
pub open spec fn hex_value(b: u8) -> Option<int> {
    if 48 <= b <= 57 {
        Some(b - 48)
    } else if 65 <= b <= 70 {
        Some(b - 55)
    } else if 97 <= b <= 102 {
        Some(b - 87)
    } else {
        None
    }
}

/// The bytes that an address stands for: a percent sign and two hexadecimal digits stand for
/// one byte, every other byte for itself.
pub open spec fn uncoded(b: Seq<u8>) -> Seq<u8>
    decreases b.len(),
{
    if b.len() == 0 {
        Seq::empty()
    } else if b[0] == 37 && b.len() >= 3 && hex_value(b[1]) is Some && hex_value(b[2]) is Some {
        seq![(hex_value(b[1])->0 * 16 + hex_value(b[2])->0) as u8] + uncoded(b.skip(3))
    } else {
        seq![b[0]] + uncoded(b.drop_first())
    }
}

/// `percent_encoding::percent_decode_str` and
/// `percent_encoding::PercentDecode::decode_utf8_lossy`: the bytes that the address stands
/// for, read as UTF-8 without change where they are valid.
#[verifier::external_body]
pub(crate) fn decode(s: &str) -> (r: String)
    ensures
        r@ == utf8_lossy(uncoded(encode_utf8(s@))),
        vstd::utf8::valid_utf8(uncoded(encode_utf8(s@))) ==> encode_utf8(r@) == uncoded(
            encode_utf8(s@),
        ),
{
    percent_encoding::percent_decode_str(s).decode_utf8_lossy().into_owned()
}

// ---- parts of a path ----

/// Whether `c` stands for itself in a part of a path.
pub open spec fn is_unreserved(c: char) -> bool {
    'a' <= c <= 'z' || 'A' <= c <= 'Z' || '0' <= c <= '9' || c == '-' || c == '_' || c == '.' || c
        == '~'
}

/// A part of a path in an address.
pub open spec fn seg_code(s: Seq<char>) -> Seq<char>
    decreases s.len(),
{
    if s.len() == 0 {
        Seq::empty()
    } else if is_unreserved(s[0]) {
        seq![s[0]] + seg_code(s.drop_first())
    } else {
        coded(encode_utf8(seq![s[0]])) + seg_code(s.drop_first())
    }
}

/// A part of a path in an address: letters, digits and `-`, `_`, `.`, `~` stand for
/// themselves.
pub fn encode_seg(s: &str) -> (r: String)
    ensures
        r@ == seg_code(s@),
{
    let v = chars_of(s);
    let mut out = String::new();
    let mut i: usize = 0;
    assert(v@.skip(0) =~= v@);
    assert(out@ + seg_code(v@) =~= seg_code(v@));
    while i < v.len()
        invariant
            i <= v@.len(),
            out@ + seg_code(v@.skip(i as int)) == seg_code(v@),
        decreases v@.len() - i,
    {
        let c = v[i];
        let ghost before = out@;
        let ghost rest = v@.skip(i as int);
        assert(rest[0] == c);
        assert(rest.drop_first() =~= v@.skip(i + 1));
        if ('a' <= c && c <= 'z') || ('A' <= c && c <= 'Z') || ('0' <= c && c <= '9') || c == '-'
            || c == '_' || c == '.' || c == '~' {
            out.push(c);
            assert(before + (seq![c] + seg_code(v@.skip(i + 1))) =~= out@ + seg_code(
                v@.skip(i + 1),
            ));
        } else {
            let mut one = String::new();
            one.push(c);
            assert(one@ =~= seq![c]);
            let code = encode(&one);
            out.append(&code);
            assert(before + (code@ + seg_code(v@.skip(i + 1))) =~= out@ + seg_code(
                v@.skip(i + 1),
            ));
        }
        i += 1;
    }
    assert(v@.skip(v@.len() as int) =~= Seq::<char>::empty());
    assert(out@ + Seq::<char>::empty() =~= out@);
    out
}

// ---- law ----

/// ASCII characters as bytes.
spec fn bytes_of(s: Seq<char>) -> Seq<u8> {
    Seq::new(s.len(), |i: int| s[i] as u8)
}

proof fn bytes_of_concat(a: Seq<char>, b: Seq<char>)
    ensures
        bytes_of(a + b) == bytes_of(a) + bytes_of(b),
{
    assert(bytes_of(a + b) =~= bytes_of(a) + bytes_of(b));
}

proof fn uncoded_of_coded(b: Seq<u8>, rest: Seq<u8>)
    ensures
        uncoded(bytes_of(coded(b)) + rest) == b + uncoded(rest),
        vstd::utf8::is_ascii_chars(coded(b)),
    decreases b.len(),
{
    if b.len() == 0 {
        assert(bytes_of(coded(b)) + rest =~= rest);
        assert(b + uncoded(rest) =~= uncoded(rest));
    } else {
        let tail = b.drop_first();
        uncoded_of_coded(tail, rest);
        let one = coded_byte(b[0]);
        bytes_of_concat(one, coded(tail));
        let all = bytes_of(coded(b)) + rest;
        let next = bytes_of(coded(tail)) + rest;
        assert(all =~= bytes_of(one) + next);
        if is_alnum_byte(b[0]) {
            assert(all[0] == b[0]);
            assert(all.drop_first() =~= next);
        } else {
            assert(all[0] == 37);
            assert(hex_value(all[1]) == Some(b[0] as int / 16));
            assert(hex_value(all[2]) == Some(b[0] as int % 16));
            assert(all.skip(3) =~= next);
        }
        assert(seq![b[0]] + (tail + uncoded(rest)) =~= b + uncoded(rest));
    }
}

proof fn seg_code_bytes(s: Seq<char>)
    ensures
        uncoded(bytes_of(seg_code(s))) == encode_utf8(s),
        vstd::utf8::is_ascii_chars(seg_code(s)),
    decreases s.len(),
{
    if s.len() > 0 {
        let tail = s.drop_first();
        seg_code_bytes(tail);
        let one = seq![s[0]];
        let none = Seq::<char>::empty();
        assert(one.drop_first() =~= none);
        assert(encode_utf8(none) =~= Seq::<u8>::empty());
        assert(encode_utf8(one) =~= vstd::utf8::encode_scalar(s[0] as u32));
        if is_unreserved(s[0]) {
            vstd::utf8::is_ascii_chars_encode_utf8(one);
            assert(encode_utf8(one) =~= bytes_of(one));
            bytes_of_concat(one, seg_code(tail));
            let all = bytes_of(seg_code(s));
            assert(all[0] == s[0] as u8);
            assert(all.drop_first() =~= bytes_of(seg_code(tail)));
            assert(seq![all[0]] =~= bytes_of(one));
        } else {
            bytes_of_concat(coded(encode_utf8(one)), seg_code(tail));
            uncoded_of_coded(encode_utf8(one), bytes_of(seg_code(tail)));
        }
    }
}

/// A part of a path comes back from its address, byte by byte.
pub proof fn decoding_undoes_encoding(s: Seq<char>)
    ensures
        uncoded(encode_utf8(seg_code(s))) == encode_utf8(s),
{
    seg_code_bytes(s);
    vstd::utf8::is_ascii_chars_encode_utf8(seg_code(s));
    assert(encode_utf8(seg_code(s)) =~= bytes_of(seg_code(s)));
}

/// In a part of a path letters, digits and `-`, `_`, `.`, `~` stand for themselves; every other
/// character is written byte by byte. What is written for two parts together is what is written
/// for each.
pub proof fn parts_are_written_character_by_character(a: Seq<char>, b: Seq<char>, c: char)
    ensures
        seg_code(a + b) == seg_code(a) + seg_code(b),
        ('a' <= c <= 'z' || 'A' <= c <= 'Z' || '0' <= c <= '9' || c == '-' || c == '_' || c == '.'
            || c == '~') ==> seg_code(seq![c]) == seq![c],
        !('a' <= c <= 'z' || 'A' <= c <= 'Z' || '0' <= c <= '9' || c == '-' || c == '_' || c == '.'
            || c == '~') ==> seg_code(seq![c]) == coded(encode_utf8(seq![c])),
    decreases a.len(),
{
    let one = seq![c];
    assert(one.drop_first() =~= Seq::<char>::empty());
    assert(seg_code(one.drop_first()) =~= Seq::<char>::empty());
    assert(seg_code(one) =~= if is_unreserved(c) { seq![c] } else { coded(encode_utf8(seq![c])) });
    if a.len() == 0 {
        assert(a + b =~= b);
        assert(seg_code(a) + seg_code(b) =~= seg_code(b));
    } else {
        assert((a + b)[0] == a[0]);
        assert((a + b).drop_first() =~= a.drop_first() + b);
        parts_are_written_character_by_character(a.drop_first(), b, c);
        assert(seg_code(a + b) =~= seg_code(a) + seg_code(b));
    }
}

/// In an address the bytes of letters and digits stand for themselves; every other byte is a
/// percent sign and its two hexadecimal digits. What is written for two runs of bytes together is
/// what is written for each.
pub proof fn bytes_are_written_one_by_one(a: Seq<u8>, b: Seq<u8>, x: u8)
    ensures
        coded(a + b) == coded(a) + coded(b),
        ('a' <= x as char <= 'z' || 'A' <= x as char <= 'Z' || '0' <= x as char <= '9') ==> coded(
            seq![x],
        ) == seq![x as char],
        !('a' <= x as char <= 'z' || 'A' <= x as char <= 'Z' || '0' <= x as char <= '9') ==> coded(
            seq![x],
        ).len() == 3 && coded(seq![x])[0] == '%' && hex_value(coded(seq![x])[1] as u8) == Some(
            x as int / 16,
        ) && hex_value(coded(seq![x])[2] as u8) == Some(x as int % 16),
    decreases a.len(),
{
    let one = seq![x];
    assert(one.drop_first() =~= Seq::<u8>::empty());
    assert(coded(one.drop_first()) =~= Seq::<char>::empty());
    assert(coded(one) =~= coded_byte(x));
    if a.len() == 0 {
        assert(a + b =~= b);
        assert(coded(a) + coded(b) =~= coded(b));
    } else {
        assert((a + b)[0] == a[0]);
        assert((a + b).drop_first() =~= a.drop_first() + b);
        bytes_are_written_one_by_one(a.drop_first(), b, x);
        assert(coded(a + b) =~= coded(a) + coded(b));
    }
}

} // verus!

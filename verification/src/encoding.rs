//! Byte encodings: UTF-8 bytes of attribute values, the UTF-16LE form of
//! `unicodePwd`, and lower-case hex text of raw record data.

use vstd::prelude::*;
use vstd::utf8::*;
use vstd::string::StringSliceAdditionalSpecFns;
use crate::text::{chars_of, digit, digit_char, push_char};

verus! {

broadcast use vstd::string::group_string_axioms;

// ── specifications ───────────────────────────────────────────────────────────

/// The UTF-16 code units of `c`, each as two little-endian bytes.
pub open spec fn char_utf16le(c: char) -> Seq<u8> {
    let v = c as u32;
    if v < 0x10000 {
        seq![(v % 256) as u8, (v / 256) as u8]
    } else {
        let high = 0xd800 + (v - 0x10000) / 1024;
        let low = 0xdc00 + (v - 0x10000) % 1024;
        seq![(high % 256) as u8, (high / 256) as u8, (low % 256) as u8, (low / 256) as u8]
    }
}

/// UTF-16LE encoding of a character sequence.
pub open spec fn utf16le(s: Seq<char>) -> Seq<u8>
    decreases s.len(),
{
    if s.len() == 0 {
        Seq::<u8>::empty()
    } else {
        utf16le(s.drop_last()) + char_utf16le(s.last())
    }
}

/// The value `unicodePwd` takes for a password: the password in double
/// quotes, UTF-16LE encoded.
pub open spec fn password_value(password: Seq<char>) -> Seq<u8> {
    utf16le(seq!['"'] + password + seq!['"'])
}

/// Lower-case hex digit for `n` (0 to 15).
pub open spec fn nibble_char(n: int) -> char {
    if n < 10 {
        digit_char(n)
    } else {
        (87 + n) as char
    }
}

/// Two lower-case hex digits per byte (`format!("{:02x}")` for each byte).
pub open spec fn hex_spec(b: Seq<u8>) -> Seq<char>
    decreases b.len(),
{
    if b.len() == 0 {
        Seq::<char>::empty()
    } else {
        seq![nibble_char((b[0] / 16) as int), nibble_char((b[0] % 16) as int)] + hex_spec(b.drop_first())
    }
}

/// Value of one hex digit byte, either case.
pub open spec fn hex_value(x: u8) -> Option<int> {
    if 48 <= x && x <= 57 {
        Some(x - 48)
    } else if 97 <= x && x <= 102 {
        Some(x - 87)
    } else if 65 <= x && x <= 70 {
        Some(x - 55)
    } else {
        None
    }
}

/// `u8::from_str_radix(pair, 16)` on a two-byte string: two hex digits, or
/// a `+` sign followed by one.
pub open spec fn hex_pair(a: u8, b: u8) -> Option<u8> {
    if a == 43 {
        match hex_value(b) {
            Some(v) => Some(v as u8),
            None => None,
        }
    } else {
        match (hex_value(a), hex_value(b)) {
            (Some(x), Some(y)) => Some((16 * x + y) as u8),
            _ => None,
        }
    }
}

/// Pairwise hex decoding from the front; `None` at the first bad pair.
pub open spec fn hex_decode(b: Seq<u8>) -> Option<Seq<u8>>
    decreases b.len(),
{
    if b.len() < 2 {
        if b.len() == 0 {
            Some(Seq::<u8>::empty())
        } else {
            None
        }
    } else {
        match hex_pair(b[0], b[1]) {
            None => None,
            Some(v) => match hex_decode(b.skip(2)) {
                Some(rest) => Some(seq![v] + rest),
                None => None,
            },
        }
    }
}

/// Whether decoding pair by pair only ever slices the text at character
/// boundaries: the pair after the last good one ends on a boundary.
pub open spec fn hex_slices_ok(b: Seq<u8>) -> bool
    decreases b.len(),
{
    if b.len() < 2 {
        true
    } else if hex_pair(b[0], b[1]) is Some {
        hex_slices_ok(b.skip(2))
    } else {
        b.len() == 2 || !is_continuation_byte(b[2])
    }
}

/// What `from_hex` returns for the bytes of its argument.
pub open spec fn from_hex_spec(b: Seq<u8>) -> Option<Seq<u8>> {
    if b.len() % 2 == 1 {
        None
    } else {
        hex_decode(b)
    }
}


proof fn lemma_hex_spec_shape(b: Seq<u8>)
    ensures
        hex_spec(b).len() == 2 * b.len(),
        is_ascii_chars(hex_spec(b)),
        forall|k: int|
            0 <= k < b.len() ==> #[trigger] hex_spec(b)[2 * k] == nibble_char((b[k] / 16) as int)
                && hex_spec(b)[2 * k + 1] == nibble_char((b[k] % 16) as int),
    decreases b.len(),
{
    if b.len() > 0 {
        let rest = b.drop_first();
        lemma_hex_spec_shape(rest);
        let h = hex_spec(b);
        assert forall|k: int| 0 <= k < b.len() implies #[trigger] h[2 * k] == nibble_char(
            (b[k] / 16) as int,
        ) && h[2 * k + 1] == nibble_char((b[k] % 16) as int) by {
            if k > 0 {
                assert(h[2 * k] == hex_spec(rest)[2 * (k - 1)]);
                assert(h[2 * k + 1] == hex_spec(rest)[2 * (k - 1) + 1]);
                assert(rest[k - 1] == b[k]);
            }
        }
        assert forall|i: int| 0 <= i < h.len() implies '\0' <= #[trigger] h[i] && h[i] <= '\u{7f}' by {
            if i >= 2 {
                assert(h[i] == hex_spec(rest)[i - 2]);
            }
        }
    }
}

/// Hex text read back gives the bytes it was made from: `from_hex` accepts
/// the UTF-8 bytes of `to_hex(b)` without slicing inside a character, and
/// returns `b`.
pub proof fn lemma_hex_roundtrip(b: Seq<u8>)
    ensures
        encode_utf8(hex_spec(b)).len() == 2 * b.len(),
        hex_slices_ok(encode_utf8(hex_spec(b))),
        from_hex_spec(encode_utf8(hex_spec(b))) == Some(b),
    decreases b.len(),
{
    let h = hex_spec(b);
    let e = encode_utf8(h);
    lemma_hex_spec_shape(b);
    is_ascii_chars_encode_utf8(h);
    assert(e.len() % 2 == 0);
    if b.len() > 0 {
        let rest = b.drop_first();
        lemma_hex_roundtrip(rest);
        lemma_hex_spec_shape(rest);
        let er = encode_utf8(hex_spec(rest));
        is_ascii_chars_encode_utf8(hex_spec(rest));
        assert(e.skip(2) =~= er) by {
            assert forall|i: int| 0 <= i < er.len() implies e.skip(2)[i] == er[i] by {
                assert(h[i + 2] == hex_spec(rest)[i]);
            }
        }
        let hi = (b[0] / 16) as int;
        let lo = (b[0] % 16) as int;
        assert(h[2 * 0int] == nibble_char(hi));
        assert(h[2 * 0int + 1] == nibble_char(lo));
        assert(e[0] == h[0] as u8);
        assert(e[1] == h[1] as u8);
        assert(hex_value(e[0]) == Some(hi));
        assert(hex_value(e[1]) == Some(lo));
        assert(e[0] != 43);
        assert(hex_pair(e[0], e[1]) == Some(b[0]));
        assert(seq![b[0]] + rest =~= b);
    } else {
        assert(e.len() == 0);
    }
}

// ── functions ────────────────────────────────────────────────────────────────

/// The UTF-8 bytes of `s`.
pub fn sv(s: &str) -> (r: Vec<u8>)
    ensures
        r@ == encode_utf8(s@),
{
    let b = s.as_bytes();
    let mut r: Vec<u8> = Vec::new();
    let mut i: usize = 0;
    while i < b.len()
        invariant
            i <= b@.len(),
            b@ == encode_utf8(s@),
            r@ == b@.take(i as int),
        decreases b@.len() - i,
    {
        r.push(b[i]);
        i += 1;
        assert(r@ =~= b@.take(i as int));
    }
    assert(b@.take(b@.len() as int) =~= b@);
    r
}

/// Appends the UTF-16LE bytes of `c`.
fn push_utf16le(out: &mut Vec<u8>, c: char)
    ensures
        final(out)@ == old(out)@ + char_utf16le(c),
{
    let v = c as u32;
    if v < 0x10000 {
        out.push((v % 256) as u8);
        out.push((v / 256) as u8);
    } else {
        assert(v <= 0x10ffff) by {
            broadcast use char_is_scalar;
        }
        let high = 0xd800 + (v - 0x10000) / 1024;
        let low = 0xdc00 + (v - 0x10000) % 1024;
        out.push((high % 256) as u8);
        out.push((high / 256) as u8);
        out.push((low % 256) as u8);
        out.push((low / 256) as u8);
    }
    assert(final(out)@ =~= old(out)@ + char_utf16le(c));
}

/// The `unicodePwd` value for a password: `"password"` in UTF-16LE.
pub fn encode_password(password: &str) -> (r: Vec<u8>)
    ensures
        r@ == password_value(password@),
{
    let pw = chars_of(password);
    let ghost quoted = seq!['"'] + password@ + seq!['"'];
    let mut out: Vec<u8> = Vec::new();
    push_utf16le(&mut out, '"');
    assert(quoted.take(1) =~= seq!['"']);
    assert(utf16le(seq!['"'].drop_last()) =~= Seq::<u8>::empty());
    assert(out@ =~= utf16le(quoted.take(1)));
    let mut i: usize = 0;
    while i < pw.len()
        invariant
            i <= pw@.len(),
            pw@ == password@,
            quoted == seq!['"'] + password@ + seq!['"'],
            out@ == utf16le(quoted.take(i + 1)),
        decreases pw@.len() - i,
    {
        assert(quoted.take(i + 2).drop_last() =~= quoted.take(i + 1));
        assert(quoted.take(i + 2).last() == pw@[i as int]);
        push_utf16le(&mut out, pw[i]);
        i += 1;
    }
    assert(quoted.take(i + 2).drop_last() =~= quoted.take(i + 1));
    push_utf16le(&mut out, '"');
    assert(quoted.take(i + 2) =~= quoted);
    out
}

/// The hex digit for a nibble.
pub fn nibble(n: u8) -> (c: char)
    requires
        n < 16,
    ensures
        c == nibble_char(n as int),
{
    if n < 10 {
        digit(n)
    } else {
        (87 + n) as char
    }
}

/// Lower-case hex text of `bytes`, two digits per byte.
pub fn to_hex(bytes: &[u8]) -> (s: String)
    ensures
        s@ == hex_spec(bytes@),
{
    let mut s = String::new();
    let mut i: usize = 0;
    assert(bytes@.skip(0) =~= bytes@);
    while i < bytes.len()
        invariant
            i <= bytes@.len(),
            hex_spec(bytes@) == s@ + hex_spec(bytes@.skip(i as int)),
        decreases bytes@.len() - i,
    {
        let b = bytes[i];
        assert(bytes@.skip(i as int).drop_first() =~= bytes@.skip(i + 1));
        push_char(&mut s, nibble(b / 16));
        push_char(&mut s, nibble(b % 16));
        i += 1;
    }
    assert(bytes@.skip(i as int) =~= Seq::<u8>::empty());
    assert(s@ =~= s@ + Seq::<char>::empty());
    s
}

fn hex_digit_value(x: u8) -> (r: Option<u8>)
    ensures
        match r {
            Some(v) => hex_value(x) == Some(v as int),
            None => hex_value(x) is None,
        },
{
    if 48 <= x && x <= 57 {
        Some(x - 48)
    } else if 97 <= x && x <= 102 {
        Some(x - 87)
    } else if 65 <= x && x <= 70 {
        Some(x - 55)
    } else {
        None
    }
}

fn hex_pair_value(a: u8, b: u8) -> (r: Option<u8>)
    ensures
        r == hex_pair(a, b),
{
    if a == 43 {
        match hex_digit_value(b) {
            Some(v) => Some(v),
            None => None,
        }
    } else {
        match (hex_digit_value(a), hex_digit_value(b)) {
            (Some(x), Some(y)) => Some(16 * x + y),
            _ => None,
        }
    }
}

/// Whether `from_hex` may be called on `s`: it is of odd length, or each
/// two-byte slice it would take falls on character boundaries.
pub fn hex_input_ok(s: &str) -> (r: bool)
    ensures
        r == (s.spec_bytes().len() % 2 == 1 || hex_slices_ok(s.spec_bytes())),
{
    let b = s.as_bytes();
    if b.len() % 2 == 1 {
        return true;
    }
    let mut i: usize = 0;
    assert(b@.skip(0) =~= b@);
    while i < b.len()
        invariant
            i <= b@.len(),
            i % 2 == 0,
            b@.len() % 2 == 0,
            b@ == s.spec_bytes(),
            hex_slices_ok(b@) == hex_slices_ok(b@.skip(i as int)),
        decreases b@.len() - i,
    {
        if hex_pair_value(b[i], b[i + 1]).is_none() {
            let ghost tail = b@.skip(i as int);
            assert(tail[0] == b@[i as int] && tail[1] == b@[i + 1]);
            if i + 2 == b.len() {
                return true;
            }
            assert(tail[2] == b@[i + 2]);
            return !(b[i + 2] >= 0x80 && b[i + 2] <= 0xbf);
        }
        assert(b@.skip(i as int).skip(2) =~= b@.skip(i + 2));
        i += 2;
    }
    true
}

/// Bytes from hex text, two digits per byte (`u8::from_str_radix` on each
/// pair); `None` for odd length or a bad pair.
pub fn from_hex(s: &str) -> (r: Option<Vec<u8>>)
    requires
        s.spec_bytes().len() % 2 == 1 || hex_slices_ok(s.spec_bytes()),
    ensures
        r.deep_view() == from_hex_spec(s.spec_bytes()),
{
    let b = s.as_bytes();
    if b.len() % 2 != 0 {
        return None;
    }
    let mut out: Vec<u8> = Vec::new();
    let mut i: usize = 0;
    assert(b@.skip(0) =~= b@);
    assert(out@ + Seq::<u8>::empty() =~= out@);
    while i < b.len()
        invariant
            i <= b@.len(),
            i % 2 == 0,
            b@.len() % 2 == 0,
            b@ == s.spec_bytes(),
            match hex_decode(b@.skip(i as int)) {
                Some(rest) => hex_decode(b@) == Some(out@ + rest),
                None => hex_decode(b@) is None,
            },
        decreases b@.len() - i,
    {
        let ghost tail = b@.skip(i as int);
        assert(tail.skip(2) =~= b@.skip(i + 2));
        match hex_pair_value(b[i], b[i + 1]) {
            None => {
                return None;
            },
            Some(v) => {
                proof {
                    match hex_decode(b@.skip(i + 2)) {
                        Some(rest) => {
                            assert(out@.push(v) + rest =~= out@ + (seq![v] + rest));
                        },
                        None => {},
                    }
                }
                out.push(v);
            },
        }
        i += 2;
    }
    assert(b@.skip(i as int) =~= Seq::<u8>::empty());
    assert(out@ + Seq::<u8>::empty() =~= out@);
    Some(out)
}

} // verus!

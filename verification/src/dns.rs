//! AD-integrated DNS records as Samba stores them in the `dnsRecord`
//! attribute (MS-DNSP `dnsp_DnssrvRpcRecord`): the name encoding used for
//! name-valued records, TXT strings, and whole-record encoding and decoding.

use vstd::prelude::*;
use vstd::utf8::*;
use vstd::string::StringSliceAdditionalSpecFns;
use crate::text::{
    chars_of, join_spec, join_strings, lossy_string, lossy_text, split_chars, split_spec,
    string_of, trim_end_char, trim_end_char_spec, lemma_split_nonempty, lemma_join_split,
    all_digits, digits_value, dec_spec, owned, push_decimal, push_char, digit_char, take_chars,
    skip_chars, concat2, parse_int, parse_int_spec,
};
use crate::encoding::{hex_spec, nibble, nibble_char, to_hex};

verus! {

broadcast use vstd::string::group_string_axioms;

// ── DNS_COUNT_NAME (dnsp_name) ───────────────────────────────────────────────

/// The length byte written for a label: its UTF-8 length, truncated to 8 bits.
pub open spec fn label_len_byte(label: Seq<char>) -> u8 {
    (encode_utf8(label).len() % 256) as u8
}

/// Each label as a length byte followed by its UTF-8 bytes.
pub open spec fn label_section(labels: Seq<Seq<char>>) -> Seq<u8>
    decreases labels.len(),
{
    if labels.len() == 0 {
        Seq::<u8>::empty()
    } else {
        seq![label_len_byte(labels[0])] + encode_utf8(labels[0]) + label_section(
            labels.drop_first(),
        )
    }
}

/// A name with no labels: empty or `@` (the zone apex).
pub open spec fn is_apex(n: Seq<char>) -> bool {
    n.len() == 0 || n == seq!['@']
}

/// The labels of a name once its trailing dots are removed.
pub open spec fn name_labels(name: Seq<char>) -> Seq<Seq<char>> {
    split_spec(trim_end_char_spec(name, '.'), '.')
}

/// The DNS_COUNT_NAME encoding of a name: total length of the label section
/// (labels and the terminating zero byte, truncated to 8 bits), label count,
/// the labels, a zero byte. The apex encodes as `[1, 0, 0]`.
pub open spec fn dnsp_name_spec(name: Seq<char>) -> Seq<u8> {
    let n = trim_end_char_spec(name, '.');
    if is_apex(n) {
        seq![1u8, 0u8, 0u8]
    } else {
        let labels = name_labels(name);
        let raw = label_section(labels).push(0u8);
        seq![(raw.len() % 256) as u8, labels.len() as u8] + raw
    }
}

/// Names the encoder accepts: the label count fits the one-byte counter.
pub open spec fn dnsp_name_ok(name: Seq<char>) -> bool {
    is_apex(trim_end_char_spec(name, '.')) || name_labels(name).len() <= 255
}

/// Labels read from `d` at `pos`, at most `k` of them: each is a length byte
/// and that many bytes; reading stops at a zero length or at a label that
/// would run past the end.
pub open spec fn rpc_labels(d: Seq<u8>, pos: int, k: nat) -> Seq<Seq<u8>>
    decreases k,
{
    if k == 0 || pos < 0 || pos >= d.len() {
        Seq::<Seq<u8>>::empty()
    } else {
        let l = d[pos] as int;
        if l == 0 || pos + 1 + l > d.len() {
            Seq::<Seq<u8>>::empty()
        } else {
            seq![d.subrange(pos + 1, pos + 1 + l)] + rpc_labels(d, pos + 1 + l, (k - 1) as nat)
        }
    }
}

/// The dotted name read from a DNS_COUNT_NAME: `.` when it has no labels.
pub open spec fn rpc_name_spec(d: Seq<u8>) -> Seq<char> {
    if d.len() < 2 {
        seq!['.']
    } else {
        let labels = rpc_labels(d, 2, d[1] as nat);
        if labels.len() == 0 {
            seq!['.']
        } else {
            join_spec(labels.map_values(|l: Seq<u8>| lossy_text(l)), seq!['.'])
        }
    }
}

proof fn lemma_label_section_push(labels: Seq<Seq<char>>, l: Seq<char>)
    ensures
        label_section(labels.push(l)) == label_section(labels) + seq![label_len_byte(l)]
            + encode_utf8(l),
    decreases labels.len(),
{
    if labels.len() == 0 {
        assert(labels.push(l).drop_first() =~= Seq::<Seq<char>>::empty());
        assert(labels.push(l)[0] == l);
        assert(label_section(Seq::<Seq<char>>::empty()) == Seq::<u8>::empty());
        assert(label_section(labels) == Seq::<u8>::empty());
        assert(label_section(labels.push(l)) =~= label_section(labels) + seq![label_len_byte(l)]
            + encode_utf8(l));
    } else {
        let pl = labels.push(l);
        assert(pl.drop_first() =~= labels.drop_first().push(l));
        assert(pl[0] == labels[0]);
        lemma_label_section_push(labels.drop_first(), l);
        assert(label_section(pl) == seq![label_len_byte(labels[0])] + encode_utf8(labels[0])
            + label_section(labels.drop_first().push(l)));
        assert(label_section(labels) == seq![label_len_byte(labels[0])] + encode_utf8(labels[0])
            + label_section(labels.drop_first()));
        assert(label_section(labels.push(l)) =~= label_section(labels) + seq![label_len_byte(l)]
            + encode_utf8(l));
    }
}


proof fn lemma_encode_utf8_nonempty(l: Seq<char>)
    requires
        l.len() > 0,
    ensures
        encode_utf8(l).len() > 0,
{
    broadcast use char_is_scalar;

    let v = l[0] as u32;
    assert(encode_scalar(v).len() > 0);
}

/// Labels that the encoding carries faithfully: non-empty and short enough
/// for their length byte.
pub open spec fn labels_well_formed(labels: Seq<Seq<char>>) -> bool {
    forall|i: int|
        0 <= i < labels.len() ==> #[trigger] labels[i].len() > 0 && encode_utf8(labels[i]).len()
            <= 255
}

proof fn lemma_rpc_labels_of_section(d: Seq<u8>, pos: int, ls: Seq<Seq<char>>)
    requires
        0 <= pos,
        pos + label_section(ls).len() <= d.len(),
        d.subrange(pos, pos + label_section(ls).len()) == label_section(ls),
        labels_well_formed(ls),
    ensures
        rpc_labels(d, pos, ls.len()) == ls.map_values(|l: Seq<char>| encode_utf8(l)),
    decreases ls.len(),
{
    if ls.len() > 0 {
        let l0 = ls[0];
        let e0 = encode_utf8(l0);
        let rest = ls.drop_first();
        let sec = label_section(ls);
        let rsec = label_section(rest);
        lemma_encode_utf8_nonempty(l0);
        assert(sec == seq![label_len_byte(l0)] + e0 + rsec);
        assert(d[pos] == sec[0]);
        assert(d[pos] as int == e0.len());
        assert(labels_well_formed(rest)) by {
            assert forall|i: int| 0 <= i < rest.len() implies #[trigger] rest[i].len() > 0
                && encode_utf8(rest[i]).len() <= 255 by {
                assert(rest[i] == ls[i + 1]);
            }
        }
        let p2 = pos + 1 + e0.len();
        assert(d.subrange(pos + 1, p2) =~= e0) by {
            assert forall|i: int| 0 <= i < e0.len() implies d.subrange(pos + 1, p2)[i] == e0[i] by {
                assert(d[pos + 1 + i] == sec[1 + i]);
            }
        }
        assert(d.subrange(p2, p2 + rsec.len()) =~= rsec) by {
            assert forall|i: int| 0 <= i < rsec.len() implies d.subrange(p2, p2 + rsec.len())[i]
                == rsec[i] by {
                assert(d[p2 + i] == sec[1 + e0.len() + i]);
            }
        }
        lemma_rpc_labels_of_section(d, p2, rest);
        assert(rpc_labels(d, pos, ls.len()) == seq![e0] + rpc_labels(d, p2, rest.len()));
        assert(rpc_labels(d, pos, ls.len()) =~= ls.map_values(|l: Seq<char>| encode_utf8(l)));
    } else {
        assert(rpc_labels(d, pos, 0) =~= ls.map_values(|l: Seq<char>| encode_utf8(l)));
    }
}

/// A name read back from its DNS_COUNT_NAME encoding is the name without its
/// trailing dots, provided it is not the apex, has at most 255 labels, and
/// each label is non-empty and at most 255 bytes of UTF-8.
pub proof fn lemma_dns_name_roundtrip(name: Seq<char>)
    requires
        !is_apex(trim_end_char_spec(name, '.')),
        name_labels(name).len() <= 255,
        labels_well_formed(name_labels(name)),
    ensures
        rpc_name_spec(dnsp_name_spec(name)) == trim_end_char_spec(name, '.'),
{
    broadcast use encode_utf8_valid_utf8, encode_utf8_decode_utf8;

    let n = trim_end_char_spec(name, '.');
    let ls = name_labels(name);
    let sec = label_section(ls);
    let raw = sec.push(0u8);
    let d = dnsp_name_spec(name);
    assert(d == seq![(raw.len() % 256) as u8, ls.len() as u8] + raw);
    assert(d[1] == ls.len());
    assert(d.subrange(2, 2 + sec.len() as int) =~= sec);
    lemma_rpc_labels_of_section(d, 2, ls);
    lemma_split_nonempty(n, '.');
    let read = rpc_labels(d, 2, d[1] as nat);
    assert(read == ls.map_values(|l: Seq<char>| encode_utf8(l)));
    assert(read.map_values(|b: Seq<u8>| lossy_text(b)) =~= ls);
    lemma_join_split(n, '.');
}

/// Whether `name` can be encoded: its label count fits in a byte.
pub fn dns_name_ok(name: &str) -> (b: bool)
    ensures
        b == dnsp_name_ok(name@),
{
    let chars = chars_of(name);
    let n = trim_end_char(&chars, '.');
    if n.len() == 0 || (n.len() == 1 && n[0] == '@') {
        assert(n@.len() == 1 ==> n@ =~= seq!['@'] || n@[0] != '@');
        return true;
    }
    assert(!is_apex(n@));
    let labels = split_chars(&n, '.');
    labels.len() <= 255
}

/// Encodes a DNS name as DNS_COUNT_NAME (the `dnsp_name` form Samba stores
/// for PTR, NS, CNAME and MX targets). Trailing dots are ignored; the empty
/// name and `@` encode the zone apex.
pub fn encode_dns_rpc_name(name: &str) -> (r: Vec<u8>)
    requires
        dnsp_name_ok(name@),
    ensures
        r@ == dnsp_name_spec(name@),
{
    let chars = chars_of(name);
    let n = trim_end_char(&chars, '.');
    if n.len() == 0 || (n.len() == 1 && n[0] == '@') {
        proof {
            if n@.len() == 1 {
                assert(n@ =~= seq!['@']);
            }
        }
        return vec![1, 0, 0];
    }
    assert(!is_apex(n@)) by {
        if n@ == seq!['@'] {
            assert(n@[0] == '@');
        }
    }
    let labels = split_chars(&n, '.');
    let ghost ls = labels.deep_view();
    let mut raw: Vec<u8> = Vec::new();
    let mut k: usize = 0;
    while k < labels.len()
        invariant
            k <= labels@.len(),
            ls == labels.deep_view(),
            raw@ == label_section(ls.take(k as int)),
        decreases labels@.len() - k,
    {
        let label = string_of(&labels[k]);
        let bytes = label.as_str().as_bytes();
        proof {
            assert(labels@[k as int]@ =~= ls[k as int]);
            assert(ls.take(k + 1) =~= ls.take(k as int).push(ls[k as int]));
            lemma_label_section_push(ls.take(k as int), ls[k as int]);
        }
        raw.push((bytes.len() % 256) as u8);
        let mut j: usize = 0;
        let ghost base = raw@;
        while j < bytes.len()
            invariant
                j <= bytes@.len(),
                raw@ == base + bytes@.take(j as int),
            decreases bytes@.len() - j,
        {
            raw.push(bytes[j]);
            j += 1;
            assert(raw@ =~= base + bytes@.take(j as int));
        }
        assert(bytes@.take(j as int) =~= bytes@);
        k += 1;
    }
    assert(ls.take(k as int) =~= ls);
    raw.push(0);
    let mut out: Vec<u8> = Vec::new();
    out.push((raw.len() % 256) as u8);
    assert(ls.len() <= 255);
    out.push(labels.len() as u8);
    let mut j: usize = 0;
    while j < raw.len()
        invariant
            j <= raw@.len(),
            out@.len() == 2 + j,
            out@[0] == (raw@.len() % 256) as u8,
            out@[1] == ls.len() as u8,
            out@ == seq![out@[0], out@[1]] + raw@.take(j as int),
        decreases raw@.len() - j,
    {
        out.push(raw[j]);
        j += 1;
        assert(out@ =~= seq![out@[0], out@[1]] + raw@.take(j as int));
    }
    assert(raw@.take(j as int) =~= raw@);
    assert(ls == name_labels(name@));
    assert(raw@ == label_section(name_labels(name@)).push(0u8));
    assert(out@ =~= dnsp_name_spec(name@));
    out
}

/// Reads a DNS_COUNT_NAME back into a dotted name; `.` when no label can be
/// read. Label bytes are decoded as UTF-8, invalid sequences replaced.
pub fn parse_dns_rpc_name(data: &[u8]) -> (r: String)
    ensures
        r@ == rpc_name_spec(data@),
{
    if data.len() < 2 {
        return string_of(&vec!['.']);
    }
    let count = data[1];
    let mut pos: usize = 2;
    let mut labels: Vec<String> = Vec::new();
    let mut read: u8 = 0;
    let mut stopped = false;
    let ghost d = data@;
    let ghost all = rpc_labels(d, 2, count as nat);
    let ghost mut raw: Seq<Seq<u8>> = Seq::empty();
    assert(all =~= raw + all);
    while read < count && !stopped
        invariant
            d == data@,
            d.len() >= 2,
            count == d[1],
            read <= count,
            2 <= pos <= d.len(),
            all == rpc_labels(d, 2, count as nat),
            all == raw + rpc_labels(d, pos as int, (count - read) as nat),
            stopped ==> rpc_labels(d, pos as int, (count - read) as nat) == Seq::<Seq<u8>>::empty(),
            labels.deep_view() == raw.map_values(|l: Seq<u8>| lossy_text(l)),
        decreases (count - read) * 2 + (if stopped { 0int } else { 1int }),
    {
        if pos >= data.len() {
            stopped = true;
        } else {
            let l = data[pos] as usize;
            if l == 0 || l > data.len() - pos - 1 {
                stopped = true;
            } else {
                let piece = &data[pos + 1..pos + 1 + l];
                let text = lossy_string(piece);
                proof {
                    let rest = rpc_labels(d, pos + 1 + l, (count - read - 1) as nat);
                    assert(rpc_labels(d, pos as int, (count - read) as nat) == seq![piece@] + rest);
                    assert(raw + (seq![piece@] + rest) =~= raw.push(piece@) + rest);
                }
                let ghost before = labels.deep_view();
                labels.push(text);
                proof {
                    raw = raw.push(piece@);
                    assert(labels.deep_view() =~= before.push(lossy_text(piece@)));
                    assert(labels.deep_view() =~= raw.map_values(|l: Seq<u8>| lossy_text(l)));
                }
                pos = pos + 1 + l;
                read += 1;
            }
        }
    }
    assert(rpc_labels(d, pos as int, (count - read) as nat) =~= Seq::<Seq<u8>>::empty());
    assert(all =~= raw);
    if labels.len() == 0 {
        assert(all.len() == 0);
        string_of(&vec!['.'])
    } else {
        proof {
            reveal_strlit(".");
            assert("."@ =~= seq!['.']);
            assert(labels.deep_view() =~= all.map_values(|l: Seq<u8>| lossy_text(l)));
        }
        join_strings(&labels, ".")
    }
}


// ── TXT strings ──────────────────────────────────────────────────────────────

/// Length-prefixed strings read from `pos` on, stopping at one that would run
/// past the end.
pub open spec fn txt_pieces(d: Seq<u8>, pos: int) -> Seq<Seq<u8>>
    decreases d.len() - pos,
{
    if pos < 0 || pos >= d.len() {
        Seq::<Seq<u8>>::empty()
    } else {
        let l = d[pos] as int;
        if pos + 1 + l > d.len() {
            Seq::<Seq<u8>>::empty()
        } else {
            seq![d.subrange(pos + 1, pos + 1 + l)] + txt_pieces(d, pos + 1 + l)
        }
    }
}

/// TXT record data as text: its strings joined with spaces.
pub open spec fn txt_spec(d: Seq<u8>) -> Seq<char> {
    join_spec(txt_pieces(d, 0).map_values(|p: Seq<u8>| lossy_text(p)), seq![' '])
}

/// TXT record data (length-prefixed character strings) as text, the strings
/// separated by spaces.
pub fn parse_txt_bytes(data: &[u8]) -> (r: String)
    ensures
        r@ == txt_spec(data@),
{
    let mut strings: Vec<String> = Vec::new();
    let mut pos: usize = 0;
    let mut stopped = false;
    let ghost d = data@;
    let ghost all = txt_pieces(d, 0);
    let ghost mut raw: Seq<Seq<u8>> = Seq::empty();
    assert(all =~= raw + all);
    while pos < data.len() && !stopped
        invariant
            d == data@,
            pos <= d.len(),
            all == txt_pieces(d, 0),
            all == raw + txt_pieces(d, pos as int),
            stopped ==> txt_pieces(d, pos as int) == Seq::<Seq<u8>>::empty(),
            strings.deep_view() == raw.map_values(|p: Seq<u8>| lossy_text(p)),
        decreases (d.len() - pos) * 2 + (if stopped { 0int } else { 1int }),
    {
        let l = data[pos] as usize;
        if l > data.len() - pos - 1 {
            stopped = true;
        } else {
            let piece = &data[pos + 1..pos + 1 + l];
            let text = lossy_string(piece);
            proof {
                let rest = txt_pieces(d, pos + 1 + l);
                assert(txt_pieces(d, pos as int) == seq![piece@] + rest);
                assert(raw + (seq![piece@] + rest) =~= raw.push(piece@) + rest);
            }
            let ghost before = strings.deep_view();
            strings.push(text);
            proof {
                raw = raw.push(piece@);
                assert(strings.deep_view() =~= before.push(lossy_text(piece@)));
                assert(strings.deep_view() =~= raw.map_values(|p: Seq<u8>| lossy_text(p)));
            }
            pos = pos + 1 + l;
        }
    }
    assert(txt_pieces(d, pos as int) =~= Seq::<Seq<u8>>::empty());
    assert(all =~= raw);
    proof {
        reveal_strlit(" ");
        assert(" "@ =~= seq![' ']);
        assert(strings.deep_view() =~= all.map_values(|p: Seq<u8>| lossy_text(p)));
    }
    join_strings(&strings, " ")
}

// ── addresses ────────────────────────────────────────────────────────────────

/// One dotted-decimal octet as `Ipv4Addr` parsing accepts it: one to three
/// digits, no leading zero, at most 255.
pub open spec fn octet_spec(s: Seq<char>) -> Option<u8> {
    if 1 <= s.len() && s.len() <= 3 && all_digits(s) && (s.len() == 1 || s[0] != '0')
        && digits_value(s) <= 255 {
        Some(digits_value(s) as u8)
    } else {
        None
    }
}

/// `Ipv4Addr` parsing: four octets separated by dots, nothing else.
pub open spec fn ipv4_spec(s: Seq<char>) -> Option<Seq<u8>> {
    let parts = split_spec(s, '.');
    if parts.len() == 4 && octet_spec(parts[0]) is Some && octet_spec(parts[1]) is Some
        && octet_spec(parts[2]) is Some && octet_spec(parts[3]) is Some {
        Some(
            seq![
                octet_spec(parts[0])->0,
                octet_spec(parts[1])->0,
                octet_spec(parts[2])->0,
                octet_spec(parts[3])->0,
            ],
        )
    } else {
        None
    }
}

/// The text of four octets in dotted-decimal form.
pub open spec fn dotted_quad(p: Seq<u8>) -> Seq<char> {
    dec_spec(p[0] as nat) + seq!['.'] + dec_spec(p[1] as nat) + seq!['.'] + dec_spec(
        p[2] as nat,
    ) + seq!['.'] + dec_spec(p[3] as nat)
}

fn parse_octet(s: &Vec<char>) -> (r: Option<u8>)
    ensures
        r == octet_spec(s@),
{
    if s.len() < 1 || s.len() > 3 {
        return None;
    }
    if s.len() > 1 && s[0] == '0' {
        return None;
    }
    let mut v: u32 = 0;
    let mut i: usize = 0;
    while i < s.len()
        invariant
            i <= s@.len() <= 3,
            forall|j: int| 0 <= j < i ==> '0' <= #[trigger] s@[j] && s@[j] <= '9',
            v == digits_value(s@.take(i as int)),
            i == 0 ==> v == 0,
            i == 1 ==> v < 10,
            i == 2 ==> v < 100,
            v < 1000,
        decreases s@.len() - i,
    {
        let c = s[i];
        if !('0' <= c && c <= '9') {
            assert(!all_digits(s@)) by {
                assert(s@[i as int] == c);
            }
            return None;
        }
        assert(s@.take(i + 1).drop_last() =~= s@.take(i as int));
        v = v * 10 + (c as u32 - 48);
        i += 1;
    }
    assert(s@.take(i as int) =~= s@);
    if v > 255 {
        return None;
    }
    Some(v as u8)
}

/// Parses dotted-decimal IPv4 text as `Ipv4Addr` does, giving its octets.
pub fn parse_ipv4(s: &str) -> (r: Option<Vec<u8>>)
    ensures
        r.deep_view() == ipv4_spec(s@),
{
    let chars = chars_of(s);
    let parts = split_chars(&chars, '.');
    let ghost ps = parts.deep_view();
    if parts.len() != 4 {
        return None;
    }
    assert(parts@[0]@ =~= ps[0] && parts@[1]@ =~= ps[1] && parts@[2]@ =~= ps[2] && parts@[3]@
        =~= ps[3]);
    let a = parse_octet(&parts[0]);
    let b = parse_octet(&parts[1]);
    let c = parse_octet(&parts[2]);
    let d = parse_octet(&parts[3]);
    match (a, b, c, d) {
        (Some(a), Some(b), Some(c), Some(d)) => {
            let r = vec![a, b, c, d];
            assert(r@ =~= ipv4_spec(s@)->0);
            Some(r)
        },
        _ => None,
    }
}

/// The eight 16-bit groups of an IPv6 address, big-endian from its octets.
pub open spec fn segments(o: Seq<u8>) -> Seq<int> {
    Seq::new(8, |i: int| o[2 * i] as int * 256 + o[2 * i + 1] as int)
}

/// Lower-case hex of `v` without leading zeros (`{:x}`).
pub open spec fn hex_group(v: nat) -> Seq<char>
    decreases v,
{
    if v < 16 {
        seq![nibble_char(v as int)]
    } else {
        hex_group(v / 16).push(nibble_char((v % 16) as int))
    }
}

/// Groups in hex, separated by colons.
pub open spec fn groups_text(segs: Seq<int>) -> Seq<char> {
    join_spec(segs.map_values(|v: int| hex_group(v as nat)), seq![':'])
}

/// How many zero groups start at `s`.
pub open spec fn zero_run(segs: Seq<int>, s: int) -> nat
    decreases segs.len() - s,
{
    if 0 <= s < segs.len() && segs[s] == 0 {
        1 + zero_run(segs, s + 1)
    } else {
        0
    }
}

/// The longest run of zero groups starting at or after `s`.
pub open spec fn longest_zero_run(segs: Seq<int>, s: int) -> nat
    decreases segs.len() - s,
{
    if s < 0 || s >= segs.len() {
        0
    } else if zero_run(segs, s) >= longest_zero_run(segs, s + 1) {
        zero_run(segs, s)
    } else {
        longest_zero_run(segs, s + 1)
    }
}

/// The first index at or after `s` where a run of `len` zero groups starts.
pub open spec fn first_run_of(segs: Seq<int>, s: int, len: nat) -> int
    decreases segs.len() - s,
{
    if s < 0 || s >= segs.len() || zero_run(segs, s) == len {
        s
    } else {
        first_run_of(segs, s + 1, len)
    }
}

/// Whether 16 octets are an IPv4-mapped address (`::ffff:a.b.c.d`).
pub open spec fn is_ipv4_mapped(o: Seq<u8>) -> bool {
    (forall|i: int| 0 <= i < 10 ==> o[i] == 0) && o[10] == 0xff && o[11] == 0xff
}

/// The text `Ipv6Addr` displays for 16 octets (RFC 5952 style): IPv4-mapped
/// addresses as `::ffff:` and a dotted quad; otherwise hex groups with the
/// first longest run of two or more zero groups written as `::`.
pub open spec fn ipv6_text(o: Seq<u8>) -> Seq<char> {
    if is_ipv4_mapped(o) {
        seq![':', ':', 'f', 'f', 'f', 'f', ':'] + dotted_quad(o.skip(12))
    } else {
        let segs = segments(o);
        let l = longest_zero_run(segs, 0);
        if l > 1 {
            let st = first_run_of(segs, 0, l);
            groups_text(segs.take(st)) + seq![':', ':'] + groups_text(segs.skip(st + l))
        } else {
            groups_text(segs)
        }
    }
}


proof fn lemma_zero_run_bound(segs: Seq<int>, s: int)
    requires
        0 <= s <= segs.len(),
    ensures
        zero_run(segs, s) <= segs.len() - s,
    decreases segs.len() - s,
{
    if s < segs.len() {
        lemma_zero_run_bound(segs, s + 1);
    }
}

proof fn lemma_first_run_ge(segs: Seq<int>, s: int, len: nat)
    requires
        0 <= s,
    ensures
        first_run_of(segs, s, len) >= s,
    decreases segs.len() - s,
{
    if s < segs.len() && zero_run(segs, s) != len {
        lemma_first_run_ge(segs, s + 1, len);
    }
}

proof fn lemma_first_run_found(segs: Seq<int>, s: int)
    requires
        0 <= s <= segs.len(),
        longest_zero_run(segs, s) > 0,
    ensures
        s <= first_run_of(segs, s, longest_zero_run(segs, s)) < segs.len(),
        zero_run(segs, first_run_of(segs, s, longest_zero_run(segs, s))) == longest_zero_run(
            segs,
            s,
        ),
    decreases segs.len() - s,
{
    let l = longest_zero_run(segs, s);
    if zero_run(segs, s) != l {
        assert(l == longest_zero_run(segs, s + 1));
        lemma_first_run_found(segs, s + 1);
        assert(first_run_of(segs, s, l) == first_run_of(segs, s + 1, l));
    }
}

proof fn lemma_groups_text_push(v: Seq<int>, x: int)
    ensures
        groups_text(v.push(x)) == if v.len() == 0 {
            hex_group(x as nat)
        } else {
            groups_text(v) + seq![':'] + hex_group(x as nat)
        },
{
    let m = v.push(x).map_values(|w: int| hex_group(w as nat));
    assert(m.drop_last() =~= v.map_values(|w: int| hex_group(w as nat)));
    if v.len() == 0 {
        assert(m.len() == 1);
    }
}

fn push_hex_group(s: &mut String, v: u64)
    ensures
        final(s)@ == old(s)@ + hex_group(v as nat),
    decreases v,
{
    if v >= 16 {
        push_hex_group(s, v / 16);
    }
    push_char(s, nibble((v % 16) as u8));
    assert(final(s)@ =~= old(s)@ + hex_group(v as nat));
}

fn push_groups(s: &mut String, segs: &Vec<u64>, from: usize, to: usize)
    requires
        from <= to <= segs@.len(),
    ensures
        final(s)@ == old(s)@ + groups_text(
            segs@.map_values(|x: u64| x as int).subrange(from as int, to as int),
        ),
{
    let ghost all = segs@.map_values(|x: u64| x as int);
    let mut k: usize = from;
    assert(all.subrange(from as int, from as int) =~= Seq::<int>::empty());
    assert(old(s)@ + groups_text(Seq::<int>::empty()) =~= old(s)@);
    while k < to
        invariant
            from <= k <= to <= segs@.len(),
            all == segs@.map_values(|x: u64| x as int),
            s@ == old(s)@ + groups_text(all.subrange(from as int, k as int)),
        decreases to - k,
    {
        proof {
            assert(all.subrange(from as int, k + 1) =~= all.subrange(from as int, k as int).push(
                all[k as int],
            ));
            lemma_groups_text_push(all.subrange(from as int, k as int), all[k as int]);
        }
        if k > from {
            push_char(s, ':');
        }
        push_hex_group(s, segs[k]);
        k += 1;
    }
}

fn zero_run_at(segs: &Vec<u64>, s: usize) -> (r: usize)
    requires
        s <= segs@.len(),
    ensures
        r == zero_run(segs@.map_values(|x: u64| x as int), s as int),
        s + r <= segs@.len(),
{
    let ghost all = segs@.map_values(|x: u64| x as int);
    let mut k: usize = s;
    while k < segs.len() && segs[k] == 0
        invariant
            s <= k <= segs@.len(),
            all == segs@.map_values(|x: u64| x as int),
            zero_run(all, s as int) == (k - s) + zero_run(all, k as int),
        decreases segs@.len() - k,
    {
        k += 1;
    }
    k - s
}

/// Text of an IPv6 address from its 16 octets, as `Ipv6Addr`'s `Display`
/// writes it.
pub fn ipv6_to_string(o: &[u8]) -> (r: String)
    requires
        o@.len() == 16,
    ensures
        r@ == ipv6_text(o@),
{
    let mut mapped = o[10] == 0xff && o[11] == 0xff;
    let mut i: usize = 0;
    while i < 10
        invariant
            i <= 10,
            o@.len() == 16,
            mapped == (o@[10] == 0xff && o@[11] == 0xff && forall|j: int| 0 <= j < i ==> o@[j]
                == 0),
        decreases 10 - i,
    {
        if o[i] != 0 {
            mapped = false;
        }
        i += 1;
    }
    let mut s = String::new();
    if mapped {
        push_char(&mut s, ':');
        push_char(&mut s, ':');
        push_char(&mut s, 'f');
        push_char(&mut s, 'f');
        push_char(&mut s, 'f');
        push_char(&mut s, 'f');
        push_char(&mut s, ':');
        push_decimal(&mut s, o[12] as u64);
        push_char(&mut s, '.');
        push_decimal(&mut s, o[13] as u64);
        push_char(&mut s, '.');
        push_decimal(&mut s, o[14] as u64);
        push_char(&mut s, '.');
        push_decimal(&mut s, o[15] as u64);
        assert(s@ =~= ipv6_text(o@));
        return s;
    }
    let mut segs: Vec<u64> = Vec::new();
    let mut g: usize = 0;
    while g < 8
        invariant
            g <= 8,
            o@.len() == 16,
            segs@.len() == g,
            forall|j: int| 0 <= j < g ==> #[trigger] segs@[j] as int == segments(o@)[j],
        decreases 8 - g,
    {
        segs.push(o[2 * g] as u64 * 256 + o[2 * g + 1] as u64);
        g += 1;
    }
    let ghost all = segs@.map_values(|x: u64| x as int);
    assert(all =~= segments(o@));
    let mut best: usize = 0;
    let mut t: usize = 8;
    while t > 0
        invariant
            t <= 8,
            segs@.len() == 8,
            all == segs@.map_values(|x: u64| x as int),
            best == longest_zero_run(all, t as int),
        decreases t,
    {
        t -= 1;
        let run = zero_run_at(&segs, t);
        if run >= best {
            best = run;
        }
    }
    if best > 1 {
        proof {
            lemma_first_run_found(all, 0);
        }
        let mut st: usize = 0;
        while zero_run_at(&segs, st) != best
            invariant
                st < 8,
                segs@.len() == 8,
                all == segs@.map_values(|x: u64| x as int),
                best == longest_zero_run(all, 0),
                st <= first_run_of(all, 0, best as nat) < 8,
                first_run_of(all, 0, best as nat) == first_run_of(all, st as int, best as nat),
            decreases 8 - st,
        {
            proof {
                lemma_first_run_ge(all, st + 1, best as nat);
            }
            st += 1;
        }
        let end = st + zero_run_at(&segs, st);
        push_groups(&mut s, &segs, 0, st);
        push_char(&mut s, ':');
        push_char(&mut s, ':');
        push_groups(&mut s, &segs, end, 8);
        assert(all.subrange(0, st as int) =~= all.take(st as int));
        assert(all.subrange(end as int, 8) =~= all.skip(end as int));
        assert(s@ =~= ipv6_text(o@));
    } else {
        push_groups(&mut s, &segs, 0, 8);
        assert(all.subrange(0, 8) =~= all);
    }
    s
}


// ── whole records ────────────────────────────────────────────────────────────

/// A little-endian 16-bit value at `i`.
pub open spec fn le16(d: Seq<u8>, i: int) -> int {
    d[i] as int + 256 * d[i + 1] as int
}

/// A big-endian 32-bit value at `i`.
pub open spec fn be32(d: Seq<u8>, i: int) -> int {
    ((d[i] as int * 256 + d[i + 1] as int) * 256 + d[i + 2] as int) * 256 + d[i + 3] as int
}

/// The record data: `wDataLength` bytes after the 24-byte header, cut at the
/// end of the value.
pub open spec fn record_payload(d: Seq<u8>) -> Seq<u8> {
    let end = 24 + le16(d, 0);
    d.subrange(24, if end < d.len() { end } else { d.len() as int })
}

/// Type name and value text for a record type and its data.
pub open spec fn record_text(rtype: int, p: Seq<u8>) -> (Seq<char>, Seq<char>) {
    if rtype == 1 && p.len() >= 4 {
        ("A"@, dotted_quad(p))
    } else if rtype == 28 && p.len() >= 16 {
        ("AAAA"@, ipv6_text(p.take(16)))
    } else if rtype == 2 {
        ("NS"@, rpc_name_spec(p))
    } else if rtype == 5 {
        ("CNAME"@, rpc_name_spec(p))
    } else if rtype == 6 {
        ("SOA"@, "(zone authority)"@)
    } else if rtype == 12 {
        ("PTR"@, rpc_name_spec(p))
    } else if rtype == 15 && p.len() >= 2 {
        ("MX"@, dec_spec(le16(p, 0) as nat) + seq![' '] + rpc_name_spec(p.skip(2)))
    } else if rtype == 16 {
        ("TXT"@, txt_spec(p))
    } else if rtype == 33 && p.len() >= 6 {
        (
            "SRV"@,
            dec_spec(le16(p, 0) as nat) + seq![' '] + dec_spec(le16(p, 2) as nat) + seq![' ']
                + dec_spec(le16(p, 4) as nat) + seq![' '] + rpc_name_spec(p.skip(6)),
        )
    } else {
        (seq!['T', 'Y', 'P', 'E'] + dec_spec(rtype as nat), hex_spec(p))
    }
}

/// A decoded `dnsRecord` value: type name, value text and TTL; `None` for a
/// value shorter than the header or a tombstone (type 0).
pub open spec fn parse_record_spec(d: Seq<u8>) -> Option<(Seq<char>, Seq<char>, u32)> {
    if d.len() < 24 || le16(d, 2) == 0 {
        None
    } else {
        let t = record_text(le16(d, 2), record_payload(d));
        Some((t.0, t.1, be32(d, 12) as u32))
    }
}

fn read_le16(d: &[u8], i: usize) -> (r: u64)
    requires
        i + 1 < d@.len(),
    ensures
        r as int == le16(d@, i as int),
        r < 65536,
{
    d[i] as u64 + 256 * d[i + 1] as u64
}

/// Decodes a `dnsRecord` value into its type name, value text and TTL.
/// Returns `None` for a tombstone or a value shorter than the record header.
pub fn parse_dns_record_binary(data: &[u8]) -> (r: Option<(String, String, u32)>)
    ensures
        match r {
            Some((t, v, ttl)) => parse_record_spec(data@) == Some((t@, v@, ttl)),
            None => parse_record_spec(data@) is None,
        },
        r matches Some((t, v, ttl)) ==> type_name_read(data@, t@),
{
    proof {
        lemma_read_record_type(data@);
    }
    if data.len() < 24 {
        return None;
    }
    let data_len = read_le16(data, 0) as usize;
    let rtype = read_le16(data, 2);
    if rtype == 0 {
        return None;
    }
    let ttl: u32 = (((data[12] as u64 * 256 + data[13] as u64) * 256 + data[14] as u64) * 256
        + data[15] as u64) as u32;
    let end = if data_len < data.len() - 24 {
        24 + data_len
    } else {
        data.len()
    };
    let payload = &data[24..end];
    let ghost p = payload@;
    assert(p == record_payload(data@));
    let (kind_text, value) = if rtype == 1 && payload.len() >= 4 {
        let mut v = String::new();
        push_decimal(&mut v, payload[0] as u64);
        push_char(&mut v, '.');
        push_decimal(&mut v, payload[1] as u64);
        push_char(&mut v, '.');
        push_decimal(&mut v, payload[2] as u64);
        push_char(&mut v, '.');
        push_decimal(&mut v, payload[3] as u64);
        assert(v@ =~= dotted_quad(p));
        (owned("A"), v)
    } else if rtype == 28 && payload.len() >= 16 {
        let first = &payload[0..16];
        assert(first@ =~= p.take(16));
        (owned("AAAA"), ipv6_to_string(first))
    } else if rtype == 2 {
        (owned("NS"), parse_dns_rpc_name(payload))
    } else if rtype == 5 {
        (owned("CNAME"), parse_dns_rpc_name(payload))
    } else if rtype == 6 {
        (owned("SOA"), owned("(zone authority)"))
    } else if rtype == 12 {
        (owned("PTR"), parse_dns_rpc_name(payload))
    } else if rtype == 15 && payload.len() >= 2 {
        let priority = read_le16(payload, 0);
        let rest = &payload[2..payload.len()];
        assert(rest@ =~= p.skip(2));
        let mut v = String::new();
        push_decimal(&mut v, priority);
        push_char(&mut v, ' ');
        v.append(parse_dns_rpc_name(rest).as_str());
        (owned("MX"), v)
    } else if rtype == 16 {
        (owned("TXT"), parse_txt_bytes(payload))
    } else if rtype == 33 && payload.len() >= 6 {
        let rest = &payload[6..payload.len()];
        assert(rest@ =~= p.skip(6));
        let mut v = String::new();
        push_decimal(&mut v, read_le16(payload, 0));
        push_char(&mut v, ' ');
        push_decimal(&mut v, read_le16(payload, 2));
        push_char(&mut v, ' ');
        push_decimal(&mut v, read_le16(payload, 4));
        push_char(&mut v, ' ');
        v.append(parse_dns_rpc_name(rest).as_str());
        (owned("SRV"), v)
    } else {
        let mut t = owned("TYPE");
        proof {
            reveal_strlit("TYPE");
        }
        push_decimal(&mut t, rtype);
        (t, to_hex(payload))
    };
    proof {
        let spec_text = record_text(rtype as int, p);
        assert(kind_text@ =~= spec_text.0);
        assert(value@ =~= spec_text.1);
    }
    Some((kind_text, value, ttl))
}


// ── IPv6 text ────────────────────────────────────────────────────────────────

/// Value of a hex digit character, either case.
pub open spec fn hex_char_value(c: char) -> Option<int> {
    if '0' <= c && c <= '9' {
        Some(c as int - 48)
    } else if 'a' <= c && c <= 'f' {
        Some(c as int - 87)
    } else if 'A' <= c && c <= 'F' {
        Some(c as int - 55)
    } else {
        None
    }
}

/// The value of a string of hex digits.
pub open spec fn hex_digits_value(s: Seq<char>) -> int
    decreases s.len(),
{
    if s.len() == 0 {
        0
    } else {
        hex_digits_value(s.drop_last()) * 16 + hex_char_value(s.last())->0
    }
}

/// One IPv6 group: one to four hex digits.
pub open spec fn h16_spec(s: Seq<char>) -> Option<int> {
    if 1 <= s.len() && s.len() <= 4 && (forall|i: int|
        0 <= i < s.len() ==> #[trigger] hex_char_value(s[i]) is Some) {
        Some(hex_digits_value(s))
    } else {
        None
    }
}

/// Whether every piece is a group.
pub open spec fn all_h16(ps: Seq<Seq<char>>) -> bool {
    forall|i: int| 0 <= i < ps.len() ==> #[trigger] h16_spec(ps[i]) is Some
}

/// The values of pieces that are all groups.
pub open spec fn h16_values(ps: Seq<Seq<char>>) -> Seq<int> {
    ps.map_values(|p: Seq<char>| h16_spec(p)->0)
}

/// Colon-separated groups, of which the last may be a dotted-quad IPv4
/// address standing for two groups; the empty text has no groups.
pub open spec fn tail_groups(t: Seq<char>) -> Option<Seq<int>> {
    if t.len() == 0 {
        Some(Seq::<int>::empty())
    } else {
        let ps = split_spec(t, ':');
        if all_h16(ps) {
            Some(h16_values(ps))
        } else if all_h16(ps.drop_last()) && ipv4_spec(ps.last()) is Some {
            let o = ipv4_spec(ps.last())->0;
            Some(
                h16_values(ps.drop_last()) + seq![
                    o[0] as int * 256 + o[1] as int,
                    o[2] as int * 256 + o[3] as int,
                ],
            )
        } else {
            None
        }
    }
}

/// Colon-separated groups before a `::`; the empty text has no groups.
pub open spec fn head_groups(h: Seq<char>) -> Option<Seq<int>> {
    if h.len() == 0 {
        Some(Seq::<int>::empty())
    } else if all_h16(split_spec(h, ':')) {
        Some(h16_values(split_spec(h, ':')))
    } else {
        None
    }
}

/// The first index at or after `i` where `::` begins.
pub open spec fn first_double_colon(s: Seq<char>, i: int) -> Option<int>
    decreases s.len() - i,
{
    if i < 0 || i + 1 >= s.len() {
        None
    } else if s[i] == ':' && s[i + 1] == ':' {
        Some(i)
    } else {
        first_double_colon(s, i + 1)
    }
}

/// Groups as big-endian octets.
pub open spec fn groups_octets(g: Seq<int>) -> Seq<u8> {
    Seq::new(
        2 * g.len(),
        |k: int|
            if k % 2 == 0 {
                (g[k / 2] / 256) as u8
            } else {
                (g[k / 2] % 256) as u8
            },
    )
}

/// `Ipv6Addr` parsing: eight groups (the last two may be a dotted quad), or
/// groups before and after a single `::` that stands for the one or more
/// zero groups needed to make eight.
pub open spec fn ipv6_parse_spec(s: Seq<char>) -> Option<Seq<u8>> {
    match first_double_colon(s, 0) {
        None => match tail_groups(s) {
            Some(g) => if g.len() == 8 && s.len() > 0 {
                Some(groups_octets(g))
            } else {
                None
            },
            None => None,
        },
        Some(i) => match (head_groups(s.take(i)), tail_groups(s.skip(i + 2))) {
            (Some(h), Some(t)) => if h.len() + t.len() <= 7 {
                Some(
                    groups_octets(
                        h + Seq::new((8 - h.len() - t.len()) as nat, |k: int| 0int) + t,
                    ),
                )
            } else {
                None
            },
            _ => None,
        },
    }
}

fn hex_char_val(c: char) -> (r: Option<u64>)
    ensures
        match r {
            Some(v) => hex_char_value(c) == Some(v as int) && v < 16,
            None => hex_char_value(c) is None,
        },
{
    if '0' <= c && c <= '9' {
        Some(c as u64 - 48)
    } else if 'a' <= c && c <= 'f' {
        Some(c as u64 - 87)
    } else if 'A' <= c && c <= 'F' {
        Some(c as u64 - 55)
    } else {
        None
    }
}

fn parse_h16(p: &Vec<char>) -> (r: Option<u64>)
    ensures
        match r {
            Some(v) => h16_spec(p@) == Some(v as int) && v < 65536,
            None => h16_spec(p@) is None,
        },
{
    if p.len() < 1 || p.len() > 4 {
        return None;
    }
    let mut v: u64 = 0;
    let mut i: usize = 0;
    while i < p.len()
        invariant
            i <= p@.len() <= 4,
            forall|j: int| 0 <= j < i ==> #[trigger] hex_char_value(p@[j]) is Some,
            v == hex_digits_value(p@.take(i as int)),
            v < pow16(i as nat),
        decreases p@.len() - i,
    {
        match hex_char_val(p[i]) {
            None => {
                return None;
            },
            Some(d) => {
                assert(p@.take(i + 1).drop_last() =~= p@.take(i as int));
                proof {
                    reveal_with_fuel(pow16, 5);
                }
                v = v * 16 + d;
            },
        }
        i += 1;
    }
    proof {
        reveal_with_fuel(pow16, 5);
    }
    assert(p@.take(i as int) =~= p@);
    Some(v)
}

/// `16^n`.
pub open spec fn pow16(n: nat) -> nat
    decreases n,
{
    if n == 0 {
        1
    } else {
        16 * pow16((n - 1) as nat)
    }
}

fn parse_h16_all(ps: &Vec<Vec<char>>, upto: usize) -> (r: Option<Vec<u64>>)
    requires
        upto <= ps@.len(),
    ensures
        match r {
            Some(v) => all_h16(ps.deep_view().take(upto as int)) && v@.map_values(|x: u64| x as int)
                == h16_values(ps.deep_view().take(upto as int)) && v@.len() == upto && (forall|k: int|
                0 <= k < v@.len() ==> #[trigger] v@[k] < 65536),
            None => !all_h16(ps.deep_view().take(upto as int)),
        },
{
    let ghost dv = ps.deep_view();
    let mut out: Vec<u64> = Vec::new();
    let mut i: usize = 0;
    while i < upto
        invariant
            i <= upto <= ps@.len(),
            dv == ps.deep_view(),
            out@.len() == i,
            forall|k: int| 0 <= k < out@.len() ==> #[trigger] out@[k] < 65536,
            all_h16(dv.take(i as int)),
            out@.map_values(|x: u64| x as int) == h16_values(dv.take(i as int)),
        decreases upto - i,
    {
        assert(ps@[i as int]@ =~= dv[i as int]);
        match parse_h16(&ps[i]) {
            None => {
                assert(!all_h16(dv.take(upto as int))) by {
                    assert(dv.take(upto as int)[i as int] == dv[i as int]);
                }
                return None;
            },
            Some(v) => {
                out.push(v);
                assert(dv.take(i + 1) =~= dv.take(i as int).push(dv[i as int]));
                assert(all_h16(dv.take(i + 1))) by {
                    assert forall|j: int| 0 <= j < i + 1 implies #[trigger] h16_spec(
                        dv.take(i + 1)[j],
                    ) is Some by {
                        if j < i {
                            assert(dv.take(i + 1)[j] == dv.take(i as int)[j]);
                        }
                    }
                }
                assert(h16_values(dv.take(i + 1)) =~= h16_values(dv.take(i as int)).push(v as int));
                assert(out@.map_values(|x: u64| x as int) =~= h16_values(dv.take(i + 1)));
            },
        }
        i += 1;
    }
    Some(out)
}

fn tail_group_values(t: &Vec<char>) -> (r: Option<Vec<u64>>)
    ensures
        match r {
            Some(v) => tail_groups(t@) == Some(v@.map_values(|x: u64| x as int)) && (forall|k: int|
                0 <= k < v@.len() ==> #[trigger] v@[k] < 65536),
            None => tail_groups(t@) is None,
        },
{
    if t.len() == 0 {
        let v: Vec<u64> = Vec::new();
        assert(v@.map_values(|x: u64| x as int) =~= Seq::<int>::empty());
        return Some(v);
    }
    let ps = split_chars(t, ':');
    let ghost dv = ps.deep_view();
    proof {
        lemma_split_nonempty(t@, ':');
    }
    assert(dv.take(dv.len() as int) =~= dv);
    assert(dv.take(dv.len() - 1) =~= dv.drop_last());
    if let Some(v) = parse_h16_all(&ps, ps.len()) {
        return Some(v);
    }
    match parse_h16_all(&ps, ps.len() - 1) {
        None => None,
        Some(mut v) => {
            let last = string_of(&ps[ps.len() - 1]);
            assert(ps@[ps@.len() - 1]@ =~= dv.last());
            match parse_ipv4(last.as_str()) {
                None => None,
                Some(o) => {
                    assert(o.deep_view().len() == 4);
                    assert(o@.len() == 4);
                    let ghost before = v@;
                    v.push(o[0] as u64 * 256 + o[1] as u64);
                    v.push(o[2] as u64 * 256 + o[3] as u64);
                    assert(v@.map_values(|x: u64| x as int) =~= tail_groups(t@)->0);
                    Some(v)
                },
            }
        },
    }
}

fn push_group_octets(out: &mut Vec<u8>, g: &Vec<u64>)
    requires
        forall|i: int| 0 <= i < g@.len() ==> #[trigger] g@[i] < 65536,
    ensures
        final(out)@ == old(out)@ + groups_octets(g@.map_values(|x: u64| x as int)),
{
    let ghost gv = g@.map_values(|x: u64| x as int);
    let mut i: usize = 0;
    while i < g.len()
        invariant
            i <= g@.len(),
            gv == g@.map_values(|x: u64| x as int),
            forall|k: int| 0 <= k < g@.len() ==> #[trigger] g@[k] < 65536,
            out@ == old(out)@ + groups_octets(gv.take(i as int)),
        decreases g@.len() - i,
    {
        let x = g[i];
        out.push((x / 256) as u8);
        out.push((x % 256) as u8);
        i += 1;
        assert(out@ =~= old(out)@ + groups_octets(gv.take(i as int)));
    }
    assert(gv.take(i as int) =~= gv);
}

/// Parses IPv6 text as `Ipv6Addr` does, giving its 16 octets.
pub fn parse_ipv6(s: &str) -> (r: Option<Vec<u8>>)
    ensures
        r.deep_view() == ipv6_parse_spec(s@),
{
    let c = chars_of(s);
    let mut i: usize = 0;
    let mut found = false;
    while c.len() > 0 && i < c.len() - 1 && !found
        invariant
            i <= c@.len(),
            first_double_colon(c@, 0) == (if found { Some(i as int) } else { first_double_colon(
                c@,
                i as int,
            ) }),
            found ==> i + 1 < c@.len(),
        decreases c@.len() - i + (if found { 0int } else { 1int }),
    {
        if c[i] == ':' && c[i + 1] == ':' {
            found = true;
        } else {
            i += 1;
        }
    }
    if !found {
        assert(first_double_colon(c@, 0) is None);
        match tail_group_values(&c) {
            None => None,
            Some(g) => {
                if g.len() == 8 && c.len() > 0 {
                    let mut out: Vec<u8> = Vec::new();
                    push_group_octets(&mut out, &g);
                    assert(out@ =~= groups_octets(g@.map_values(|x: u64| x as int)));
                    Some(out)
                } else {
                    None
                }
            },
        }
    } else {
        let head = take_chars(&c, i);
        let tail = skip_chars(&c, i + 2);
        let hv: Option<Vec<u64>> = if head.len() == 0 {
            let v: Vec<u64> = Vec::new();
            assert(v@.map_values(|x: u64| x as int) =~= Seq::<int>::empty());
            Some(v)
        } else {
            let ps = split_chars(&head, ':');
            assert(ps.deep_view().take(ps@.len() as int) =~= ps.deep_view());
            parse_h16_all(&ps, ps.len())
        };
        match (hv, tail_group_values(&tail)) {
            (Some(h), Some(t)) => {
                if h.len() <= 7 && t.len() <= 7 - h.len() {
                    let gap = 8 - h.len() - t.len();
                    let mut all: Vec<u64> = Vec::new();
                    let mut k: usize = 0;
                    while k < h.len()
                        invariant
                            k <= h@.len(),
                            all@ == h@.take(k as int),
                        decreases h@.len() - k,
                    {
                        all.push(h[k]);
                        k += 1;
                        assert(all@ =~= h@.take(k as int));
                    }
                    let mut z: usize = 0;
                    while z < gap
                        invariant
                            z <= gap,
                            all@ == h@ + Seq::new(z as nat, |j: int| 0u64),
                        decreases gap - z,
                    {
                        all.push(0);
                        z += 1;
                        assert(all@ =~= h@ + Seq::new(z as nat, |j: int| 0u64));
                    }
                    let mut k: usize = 0;
                    let ghost mid = all@;
                    while k < t.len()
                        invariant
                            k <= t@.len(),
                            all@ == mid + t@.take(k as int),
                        decreases t@.len() - k,
                    {
                        all.push(t[k]);
                        k += 1;
                        assert(all@ =~= mid + t@.take(k as int));
                    }
                    assert(t@.take(k as int) =~= t@);
                    let mut out: Vec<u8> = Vec::new();
                    push_group_octets(&mut out, &all);
                    assert(all@.map_values(|x: u64| x as int) =~= h@.map_values(|x: u64| x as int)
                        + Seq::new(gap as nat, |j: int| 0int) + t@.map_values(|x: u64| x as int));
                    assert(out@ =~= ipv6_parse_spec(s@)->0);
                    Some(out)
                } else {
                    None
                }
            },
            _ => None,
        }
    }
}


// ── building records ─────────────────────────────────────────────────────────

/// `str::splitn(2, c)`: the text before the first `c`, and the text after it
/// when there is one.
pub open spec fn split_once_spec(s: Seq<char>, c: char) -> (Seq<char>, Option<Seq<char>>)
    decreases s.len(),
{
    if s.len() == 0 {
        (s, None)
    } else if s[0] == c {
        (Seq::<char>::empty(), Some(s.drop_first()))
    } else {
        let r = split_once_spec(s.drop_first(), c);
        (seq![s[0]] + r.0, r.1)
    }
}

/// The error for an MX value that is not `<priority> <hostname>`.
pub open spec fn mx_format_error() -> Seq<char> {
    "MX format: <priority> <hostname>"@
}

/// Record type number and data for a record type name and value text.
pub open spec fn record_data_spec(kind: Seq<char>, value: Seq<char>) -> Result<
    (u16, Seq<u8>),
    Seq<char>,
> {
    if kind == "A"@ {
        match ipv4_spec(value) {
            Some(o) => Ok((1u16, o)),
            None => Err("Invalid IPv4: "@ + value),
        }
    } else if kind == "AAAA"@ {
        match ipv6_parse_spec(value) {
            Some(o) => Ok((28u16, o)),
            None => Err("Invalid IPv6: "@ + value),
        }
    } else if kind == "NS"@ {
        Ok((2u16, dnsp_name_spec(value)))
    } else if kind == "CNAME"@ {
        Ok((5u16, dnsp_name_spec(value)))
    } else if kind == "PTR"@ {
        Ok((12u16, dnsp_name_spec(value)))
    } else if kind == "TXT"@ {
        let b = encode_utf8(value);
        Ok((16u16, seq![(b.len() % 256) as u8] + b))
    } else if kind == "MX"@ {
        let parts = split_once_spec(value, ' ');
        match parse_int_spec(parts.0, false, 0, 65535) {
            None => Err(mx_format_error()),
            Some(priority) => match parts.1 {
                None => Err(mx_format_error()),
                Some(name) => Ok(
                    (15u16, seq![(priority % 256) as u8, (priority / 256) as u8] + dnsp_name_spec(name)),
                ),
            },
        }
    } else {
        Err("Unsupported type: "@ + kind)
    }
}

/// Values the record builder accepts: name targets whose label count fits
/// the one-byte counter.
pub open spec fn record_value_ok(kind: Seq<char>, value: Seq<char>) -> bool {
    &&& (kind == "NS"@ || kind == "CNAME"@ || kind == "PTR"@) ==> dnsp_name_ok(value)
    &&& kind == "MX"@ ==> {
        let parts = split_once_spec(value, ' ');
        (parse_int_spec(parts.0, false, 0, 65535) is Some && parts.1 is Some) ==> dnsp_name_ok(
            parts.1->0,
        )
    }
}

/// A whole `dnsRecord` value: the 24-byte header (data length and type
/// little-endian, version 5, rank 0xF0 for a zone record, TTL big-endian,
/// zero flags, serial, reserved word and timestamp), then the data.
pub open spec fn record_bytes_spec(rtype: u16, data: Seq<u8>, ttl: u32) -> Seq<u8> {
    let n = data.len() % 65536;
    seq![
        (n % 256) as u8,
        (n / 256) as u8,
        (rtype % 256) as u8,
        (rtype / 256) as u8,
        5u8,
        0xf0u8,
        0u8,
        0u8,
        0u8,
        0u8,
        0u8,
        0u8,
        (ttl / 16777216) as u8,
        ((ttl / 65536) % 256) as u8,
        ((ttl / 256) % 256) as u8,
        (ttl % 256) as u8,
        0u8,
        0u8,
        0u8,
        0u8,
        0u8,
        0u8,
        0u8,
        0u8,
    ] + data
}

/// What `build_dns_record_binary` returns.
pub open spec fn build_record_spec(kind: Seq<char>, value: Seq<char>, ttl: u32) -> Result<
    Seq<u8>,
    Seq<char>,
> {
    match record_data_spec(kind, value) {
        Ok((rtype, data)) => Ok(record_bytes_spec(rtype, data, ttl)),
        Err(e) => Err(e),
    }
}

/// The record type names are distinct texts.
pub proof fn lemma_kind_names_distinct()
    ensures
        "A"@ != "AAAA"@,
        "A"@ != "NS"@,
        "A"@ != "CNAME"@,
        "A"@ != "PTR"@,
        "A"@ != "TXT"@,
        "A"@ != "MX"@,
        "AAAA"@ != "NS"@,
        "AAAA"@ != "CNAME"@,
        "AAAA"@ != "PTR"@,
        "AAAA"@ != "TXT"@,
        "AAAA"@ != "MX"@,
        "NS"@ != "CNAME"@,
        "NS"@ != "PTR"@,
        "NS"@ != "TXT"@,
        "NS"@ != "MX"@,
        "CNAME"@ != "PTR"@,
        "CNAME"@ != "TXT"@,
        "CNAME"@ != "MX"@,
        "PTR"@ != "TXT"@,
        "PTR"@ != "MX"@,
        "TXT"@ != "MX"@,
{
    reveal_strlit("A");
    reveal_strlit("AAAA");
    reveal_strlit("NS");
    reveal_strlit("CNAME");
    reveal_strlit("PTR");
    reveal_strlit("TXT");
    reveal_strlit("MX");
    assert("A"@.len() == 1 && "AAAA"@.len() == 4 && "NS"@.len() == 2 && "CNAME"@.len() == 5
        && "PTR"@.len() == 3 && "TXT"@.len() == 3 && "MX"@.len() == 2);
    assert("NS"@[0] != "MX"@[0]);
    assert("PTR"@[0] != "TXT"@[0]);
}

/// Whether `build_dns_record_binary` may be called with these arguments.
pub fn record_value_accepted(kind: &str, value: &str) -> (b: bool)
    ensures
        b == record_value_ok(kind@, value@),
{
    let k = chars_of(kind);
    proof {
        lemma_kind_names_distinct();
    }
    if is_literal(&k, "NS") || is_literal(&k, "CNAME") || is_literal(&k, "PTR") {
        return dns_name_ok(value);
    }
    if is_literal(&k, "MX") {
        let v = chars_of(value);
        let (first, rest) = split_once(&v, ' ');
        match (parse_int(&first, false, 0, 65535), rest) {
            (Some(_), Some(name)) => {
                assert(name.deep_view() =~= name@);
                let name_text = string_of(&name);
                return dns_name_ok(name_text.as_str());
            },
            _ => {
                return true;
            },
        }
    }
    true
}

/// Whether the characters `k` spell the literal `lit`.
pub fn is_literal(k: &Vec<char>, lit: &str) -> (b: bool)
    ensures
        b == (k@ == lit@),
{
    let l = chars_of(lit);
    if k.len() != l.len() {
        assert(k@.len() != l@.len());
        return false;
    }
    let mut i: usize = 0;
    while i < k.len()
        invariant
            i <= k@.len(),
            k@.len() == l@.len(),
            l@ == lit@,
            forall|j: int| 0 <= j < i ==> k@[j] == l@[j],
        decreases k@.len() - i,
    {
        if k[i] != l[i] {
            assert(k@[i as int] != l@[i as int]);
            return false;
        }
        i += 1;
    }
    assert(k@ =~= l@);
    true
}

/// The text before the first `c` and, when there is a `c`, the text after it.
pub fn split_once(s: &Vec<char>, c: char) -> (r: (Vec<char>, Option<Vec<char>>))
    ensures
        r.0@ == split_once_spec(s@, c).0,
        r.1.deep_view() == split_once_spec(s@, c).1,
{
    let mut i: usize = 0;
    assert(s@.skip(0) =~= s@);
    assert(s@.take(0) + split_once_spec(s@, c).0 =~= split_once_spec(s@, c).0);
    while i < s.len() && s[i] != c
        invariant
            i <= s@.len(),
            forall|j: int| 0 <= j < i ==> s@[j] != c,
            split_once_spec(s@, c) == (s@.take(i as int) + split_once_spec(s@.skip(i as int), c).0,
            split_once_spec(s@.skip(i as int), c).1),
        decreases s@.len() - i,
    {
        proof {
            let t = s@.skip(i as int);
            assert(t.drop_first() =~= s@.skip(i + 1));
            assert(s@.take(i + 1) =~= s@.take(i as int) + seq![t[0]]);
            assert(s@.take(i as int) + split_once_spec(t, c).0 =~= s@.take(i + 1) + split_once_spec(
                s@.skip(i + 1),
                c,
            ).0);
        }
        i += 1;
    }
    let first = take_chars(s, i);
    if i == s.len() {
        assert(s@.skip(i as int) =~= Seq::<char>::empty());
        assert(first@ =~= first@ + Seq::<char>::empty());
        (first, None)
    } else {
        let rest = skip_chars(s, i + 1);
        assert(s@.skip(i as int).drop_first() =~= s@.skip(i + 1));
        assert(first@ =~= first@ + Seq::<char>::empty());
        assert(rest.deep_view() =~= rest@);
        (first, Some(rest))
    }
}

fn push_all(out: &mut Vec<u8>, b: &[u8])
    ensures
        final(out)@ == old(out)@ + b@,
{
    let mut j: usize = 0;
    while j < b.len()
        invariant
            j <= b@.len(),
            out@ == old(out)@ + b@.take(j as int),
        decreases b@.len() - j,
    {
        out.push(b[j]);
        j += 1;
        assert(out@ =~= old(out)@ + b@.take(j as int));
    }
    assert(b@.take(j as int) =~= b@);
}

/// Record type number and data for a type name and value text.
#[verifier::rlimit(40)]
fn record_data(record_type: &str, value: &str) -> (r: Result<(u16, Vec<u8>), String>)
    requires
        record_value_ok(record_type@, value@),
    ensures
        match r {
            Ok((t, d)) => record_data_spec(record_type@, value@) == Ok::<(u16, Seq<u8>), Seq<char>>(
                (t, d@),
            ),
            Err(e) => record_data_spec(record_type@, value@) == Err::<(u16, Seq<u8>), Seq<char>>(
                e@,
            ),
        },
{
    let k = chars_of(record_type);
    let ghost kind = record_type@;
    proof {
        lemma_kind_names_distinct();
    }
    if is_literal(&k, "A") {
        match parse_ipv4(value) {
            Some(o) => {
                assert(o.deep_view() =~= o@);
                Ok((1, o))
            },
            None => {
                return Err(concat2("Invalid IPv4: ", value));
            },
        }
    } else if is_literal(&k, "AAAA") {
        match parse_ipv6(value) {
            Some(o) => {
                assert(o.deep_view() =~= o@);
                Ok((28, o))
            },
            None => {
                return Err(concat2("Invalid IPv6: ", value));
            },
        }
    } else if is_literal(&k, "NS") {
        Ok((2, encode_dns_rpc_name(value)))
    } else if is_literal(&k, "CNAME") {
        Ok((5, encode_dns_rpc_name(value)))
    } else if is_literal(&k, "PTR") {
        Ok((12, encode_dns_rpc_name(value)))
    } else if is_literal(&k, "TXT") {
        let bytes = value.as_bytes();
        let mut d: Vec<u8> = Vec::new();
        d.push((bytes.len() % 256) as u8);
        push_all(&mut d, bytes);
        Ok((16, d))
    } else if is_literal(&k, "MX") {
        let v = chars_of(value);
        let (first, rest) = split_once(&v, ' ');
        let priority = match parse_int(&first, false, 0, 65535) {
            Some(p) => p,
            None => {
                return Err(owned("MX format: <priority> <hostname>"));
            },
        };
        let name = match rest {
            Some(n) => n,
            None => {
                return Err(owned("MX format: <priority> <hostname>"));
            },
        };
        assert(name.deep_view() =~= name@);
        let name_text = string_of(&name);
        let mut d: Vec<u8> = Vec::new();
        d.push((priority % 256) as u8);
        d.push((priority / 256) as u8);
        let enc = encode_dns_rpc_name(name_text.as_str());
        push_all(&mut d, enc.as_slice());
        assert(d@ =~= seq![(priority % 256) as u8, (priority / 256) as u8] + enc@);
        assert(d@ =~= seq![((priority as int) % 256) as u8, ((priority as int) / 256) as u8]
            + dnsp_name_spec(split_once_spec(value@, ' ').1->0));
        Ok((15, d))
    } else {
        Err(concat2("Unsupported type: ", record_type))
    }
}

/// Encodes a DNS record (A, AAAA, NS, CNAME, PTR, TXT or MX given as type name
/// and value text) as the `dnsRecord` value Samba stores. Unparsable
/// addresses, a malformed MX value and unknown types give an error message.
pub fn build_dns_record_binary(record_type: &str, value: &str, ttl: u32) -> (r: Result<
    Vec<u8>,
    String,
>)
    requires
        record_value_ok(record_type@, value@),
    ensures
        match r {
            Ok(b) => build_record_spec(record_type@, value@, ttl) == Ok::<Seq<u8>, Seq<char>>(b@),
            Err(e) => build_record_spec(record_type@, value@, ttl) == Err::<Seq<u8>, Seq<char>>(e@),
        },
        r matches Ok(b) ==> static_record_header(b@, ttl) && type_number_written(
            record_type@,
            b@,
        ),
{
    proof {
        lemma_built_record_header(record_type@, value@, ttl);
    }
    let (rtype, data) = match record_data(record_type, value) {
        Ok(x) => x,
        Err(e) => {
            return Err(e);
        },
    };
    let ghost kind = record_type@;
    assert(record_data_spec(kind, value@) == Ok::<(u16, Seq<u8>), Seq<char>>((rtype, data@)));
    let n = data.len() % 65536;
    let mut rec: Vec<u8> = Vec::new();
    rec.push((n % 256) as u8);
    rec.push((n / 256) as u8);
    rec.push((rtype % 256) as u8);
    rec.push((rtype / 256) as u8);
    rec.push(5);
    rec.push(0xf0);
    rec.push(0);
    rec.push(0);
    rec.push(0);
    rec.push(0);
    rec.push(0);
    rec.push(0);
    rec.push((ttl / 16777216) as u8);
    rec.push(((ttl / 65536) % 256) as u8);
    rec.push(((ttl / 256) % 256) as u8);
    rec.push((ttl % 256) as u8);
    rec.push(0);
    rec.push(0);
    rec.push(0);
    rec.push(0);
    rec.push(0);
    rec.push(0);
    rec.push(0);
    rec.push(0);
    push_all(&mut rec, data.as_slice());
    assert(rec@ =~= record_bytes_spec(rtype, data@, ttl));
    Ok(rec)
}


// ── laws of the record codec ─────────────────────────────────────────────────

proof fn lemma_label_section_len(ls: Seq<Seq<char>>)
    requires
        labels_well_formed(ls),
    ensures
        label_section(ls).len() <= 256 * ls.len(),
    decreases ls.len(),
{
    if ls.len() > 0 {
        let rest = ls.drop_first();
        assert(labels_well_formed(rest)) by {
            assert forall|i: int| 0 <= i < rest.len() implies #[trigger] rest[i].len() > 0
                && encode_utf8(rest[i]).len() <= 255 by {
                assert(rest[i] == ls[i + 1]);
            }
        }
        lemma_label_section_len(rest);
        assert(encode_utf8(ls[0]).len() <= 255);
    }
}

proof fn lemma_record_bytes_fields(rtype: u16, data: Seq<u8>, ttl: u32)
    requires
        data.len() < 65536,
        rtype != 0,
    ensures
        record_bytes_spec(rtype, data, ttl).len() >= 24,
        le16(record_bytes_spec(rtype, data, ttl), 0) == data.len(),
        le16(record_bytes_spec(rtype, data, ttl), 2) == rtype,
        be32(record_bytes_spec(rtype, data, ttl), 12) == ttl,
        record_payload(record_bytes_spec(rtype, data, ttl)) == data,
{
    let b = record_bytes_spec(rtype, data, ttl);
    assert(b[12] as int == ttl / 16777216);
    assert(b[13] as int == (ttl / 65536) % 256);
    assert(b[14] as int == (ttl / 256) % 256);
    assert(b[15] as int == ttl % 256);
    assert(be32(b, 12) == ttl as int);
    assert(record_payload(b) =~= data);
}

/// A PTR, NS or CNAME record read back from the value built for it gives its
/// type name, the target name without trailing dots, and its TTL, for target
/// names the encoding carries faithfully (not the apex, at most 255 labels,
/// each non-empty and at most 255 bytes).
pub proof fn lemma_name_record_roundtrip(kind: Seq<char>, value: Seq<char>, ttl: u32)
    requires
        kind == "PTR"@ || kind == "NS"@ || kind == "CNAME"@,
        !is_apex(trim_end_char_spec(value, '.')),
        name_labels(value).len() <= 255,
        labels_well_formed(name_labels(value)),
    ensures
        build_record_spec(kind, value, ttl) is Ok,
        parse_record_spec(build_record_spec(kind, value, ttl)->Ok_0) == Some(
            (kind, trim_end_char_spec(value, '.'), ttl),
        ),
{
    lemma_kind_names_distinct();
    let data = dnsp_name_spec(value);
    lemma_label_section_len(name_labels(value));
    assert(data.len() < 65536);
    let rtype: u16 = if kind == "PTR"@ {
        12u16
    } else if kind == "NS"@ {
        2u16
    } else {
        5u16
    };
    assert(record_data_spec(kind, value) == Ok::<(u16, Seq<u8>), Seq<char>>((rtype, data)));
    lemma_record_bytes_fields(rtype, data, ttl);
    lemma_dns_name_roundtrip(value);
}

/// A TXT record read back from the value built for it gives `TXT`, the text
/// and the TTL, for text of at most 255 bytes of UTF-8.
pub proof fn lemma_txt_record_roundtrip(value: Seq<char>, ttl: u32)
    requires
        encode_utf8(value).len() <= 255,
    ensures
        build_record_spec("TXT"@, value, ttl) is Ok,
        parse_record_spec(build_record_spec("TXT"@, value, ttl)->Ok_0) == Some(
            ("TXT"@, value, ttl),
        ),
{
    broadcast use encode_utf8_valid_utf8, encode_utf8_decode_utf8;

    lemma_kind_names_distinct();
    let b = encode_utf8(value);
    let data = seq![(b.len() % 256) as u8] + b;
    assert(record_data_spec("TXT"@, value) == Ok::<(u16, Seq<u8>), Seq<char>>((16u16, data)));
    lemma_record_bytes_fields(16u16, data, ttl);
    lemma_txt_single(value);
}

proof fn lemma_txt_single(value: Seq<char>)
    requires
        encode_utf8(value).len() <= 255,
    ensures
        txt_spec(seq![(encode_utf8(value).len() % 256) as u8] + encode_utf8(value)) == value,
{
    broadcast use encode_utf8_valid_utf8, encode_utf8_decode_utf8;

    let b = encode_utf8(value);
    let data = seq![(b.len() % 256) as u8] + b;
    assert(data[0] as int == b.len());
    assert(data.subrange(1, 1 + b.len() as int) =~= b);
    assert(txt_pieces(data, 1 + b.len() as int) =~= Seq::<Seq<u8>>::empty());
    assert(txt_pieces(data, 0) =~= seq![b]);
    assert(txt_pieces(data, 0).map_values(|p: Seq<u8>| lossy_text(p)) =~= seq![value]);
}

/// Digits without a leading zero are the decimal text of their value.
proof fn lemma_dec_of_digits(s: Seq<char>)
    requires
        s.len() >= 1,
        all_digits(s),
        s.len() == 1 || s[0] != '0',
    ensures
        dec_spec(digits_value(s)) == s,
        s.len() > 1 ==> digits_value(s) >= 10,
    decreases s.len(),
{
    let last = s.last();
    let d = ((last as u32) - 48) as nat;
    assert('0' <= s[s.len() - 1] && s[s.len() - 1] <= '9');
    char_u32_cast(last, last as u32);
    assert(digit_char(d as int) == last);
    if s.len() == 1 {
        assert(s.drop_last() =~= Seq::<char>::empty());
        assert(digits_value(Seq::<char>::empty()) == 0);
        assert(digits_value(s) == d);
        assert(dec_spec(d) =~= s);
    } else {
        let t = s.drop_last();
        assert(all_digits(t)) by {
            assert forall|i: int| 0 <= i < t.len() implies '0' <= #[trigger] t[i] && t[i] <= '9' by {
                assert(t[i] == s[i]);
            }
        }
        assert(t[0] == s[0]);
        lemma_dec_of_digits(t);
        let n = digits_value(s);
        assert(n == digits_value(t) * 10 + d);
        if t.len() == 1 {
            assert(t.drop_last() =~= Seq::<char>::empty());
            assert(digits_value(Seq::<char>::empty()) == 0);
            assert(digits_value(t) == ((t[0] as u32) - 48) as nat);
            assert(digits_value(t) >= 1);
        }
        assert(n >= 10);
        assert(n / 10 == digits_value(t));
        assert(n % 10 == d);
        assert(dec_spec(n) == dec_spec(n / 10).push(digit_char((n % 10) as int)));
        assert(s =~= t.push(last));
    }
}

/// An A record read back from the value built for it gives `A`, the address
/// exactly as it was written, and the TTL: every text `Ipv4Addr` accepts is
/// already in dotted-decimal form.
pub proof fn lemma_a_record_roundtrip(value: Seq<char>, ttl: u32)
    requires
        ipv4_spec(value) is Some,
    ensures
        build_record_spec("A"@, value, ttl) is Ok,
        parse_record_spec(build_record_spec("A"@, value, ttl)->Ok_0) == Some(("A"@, value, ttl)),
{
    lemma_kind_names_distinct();
    let o = ipv4_spec(value)->0;
    assert(record_data_spec("A"@, value) == Ok::<(u16, Seq<u8>), Seq<char>>((1u16, o)));
    lemma_record_bytes_fields(1u16, o, ttl);
    let p = split_spec(value, '.');
    assert forall|i: int| 0 <= i < 4 implies dec_spec(#[trigger] o[i] as nat) == p[i] by {
        lemma_dec_of_digits(p[i]);
    }
    lemma_join_split(value, '.');
    let sep = seq!['.'];
    assert(p.drop_last().drop_last().drop_last() =~= seq![p[0]]);
    assert(join_spec(p.drop_last().drop_last(), sep) == join_spec(
        p.drop_last().drop_last().drop_last(),
        sep,
    ) + sep + p[1]);
    assert(join_spec(p.drop_last(), sep) == join_spec(p.drop_last().drop_last(), sep) + sep
        + p[2]);
    assert(join_spec(p, sep) == join_spec(p.drop_last(), sep) + sep + p[3]);
    assert(dotted_quad(o) =~= value);
}

/// An MX record read back from the value built for it gives `MX`, the
/// priority in decimal, a space, the mail host without trailing dots, and
/// the TTL, for hosts the name encoding carries faithfully.
pub proof fn lemma_mx_record_roundtrip(value: Seq<char>, ttl: u32)
    requires
        parse_int_spec(split_once_spec(value, ' ').0, false, 0, 65535) is Some,
        split_once_spec(value, ' ').1 is Some,
        !is_apex(trim_end_char_spec(split_once_spec(value, ' ').1->0, '.')),
        name_labels(split_once_spec(value, ' ').1->0).len() <= 255,
        labels_well_formed(name_labels(split_once_spec(value, ' ').1->0)),
    ensures
        build_record_spec("MX"@, value, ttl) is Ok,
        parse_record_spec(build_record_spec("MX"@, value, ttl)->Ok_0) == Some(
            (
                "MX"@,
                dec_spec(parse_int_spec(split_once_spec(value, ' ').0, false, 0, 65535)->0 as nat)
                    + seq![' '] + trim_end_char_spec(split_once_spec(value, ' ').1->0, '.'),
                ttl,
            ),
        ),
{
    lemma_kind_names_distinct();
    let parts = split_once_spec(value, ' ');
    let pr = parse_int_spec(parts.0, false, 0, 65535)->0;
    let name = parts.1->0;
    let enc = dnsp_name_spec(name);
    let data = seq![(pr % 256) as u8, (pr / 256) as u8] + enc;
    assert(record_data_spec("MX"@, value) == Ok::<(u16, Seq<u8>), Seq<char>>((15u16, data)));
    lemma_label_section_len(name_labels(name));
    assert(data.len() < 65536);
    lemma_record_bytes_fields(15u16, data, ttl);
    assert(le16(data, 0) == pr);
    assert(data.skip(2) =~= enc);
    lemma_dns_name_roundtrip(name);
}

/// An AAAA record read back from the value built for it gives `AAAA`, the
/// address in its canonical text form (which parses to the same address),
/// and the TTL.
pub proof fn lemma_aaaa_record_roundtrip(value: Seq<char>, ttl: u32)
    requires
        ipv6_parse_spec(value) is Some,
    ensures
        build_record_spec("AAAA"@, value, ttl) is Ok,
        parse_record_spec(build_record_spec("AAAA"@, value, ttl)->Ok_0) == Some(
            ("AAAA"@, ipv6_text(ipv6_parse_spec(value)->0), ttl),
        ),
        ipv6_parse_spec(ipv6_text(ipv6_parse_spec(value)->0)) == ipv6_parse_spec(value),
{
    lemma_kind_names_distinct();
    let o = ipv6_parse_spec(value)->0;
    match first_double_colon(value, 0) {
        None => {},
        Some(i) => {
            let h = head_groups(value.take(i))->0;
            let t = tail_groups(value.skip(i + 2))->0;
            let z = Seq::new((8 - h.len() - t.len()) as nat, |k: int| 0int);
            assert((h + z + t).len() == 8);
        },
    }
    assert(o.len() == 16);
    lemma_ipv6_text_parses(o);
    assert(record_data_spec("AAAA"@, value) == Ok::<(u16, Seq<u8>), Seq<char>>((28u16, o)));
    lemma_record_bytes_fields(28u16, o, ttl);
    assert(o.take(16) =~= o);
}

proof fn lemma_octet_text(n: u8)
    ensures
        octet_spec(dec_spec(n as nat)) == Some(n),
        forall|m: int| 0 <= m < dec_spec(n as nat).len() ==> #[trigger] dec_spec(n as nat)[m] != '.',
{
    crate::text::lemma_dec_digits(n as nat);
    crate::text::lemma_dec_shape(n as nat);
    let d = dec_spec(n as nat);
    assert forall|m: int| 0 <= m < d.len() implies #[trigger] d[m] != '.' by {
        assert('0' <= d[m] && d[m] <= '9');
    }
}

/// The dotted-decimal text of four octets parses back to them: together
/// with the A record law, display and parsing of IPv4 addresses are
/// inverse.
pub proof fn lemma_dotted_quad_parses(p: Seq<u8>)
    requires
        p.len() == 4,
    ensures
        ipv4_spec(dotted_quad(p)) == Some(p),
{
    let d0 = dec_spec(p[0] as nat);
    let d1 = dec_spec(p[1] as nat);
    let d2 = dec_spec(p[2] as nat);
    let d3 = dec_spec(p[3] as nat);
    lemma_octet_text(p[0]);
    lemma_octet_text(p[1]);
    lemma_octet_text(p[2]);
    lemma_octet_text(p[3]);
    let t2 = d2 + seq!['.'] + d3;
    let t1 = d1 + seq!['.'] + t2;
    let x = d0 + seq!['.'] + t1;
    assert(dotted_quad(p) =~= x);
    crate::text::lemma_split_no_sep(d0, '.');
    crate::text::lemma_split_no_sep(d1, '.');
    crate::text::lemma_split_no_sep(d2, '.');
    crate::text::lemma_split_no_sep(d3, '.');
    crate::text::lemma_split_concat(d2, d3, '.');
    crate::text::lemma_split_concat(d1, t2, '.');
    crate::text::lemma_split_concat(d0, t1, '.');
    assert(split_spec(x, '.') =~= seq![d0, d1, d2, d3]);
    assert(seq![p[0], p[1], p[2], p[3]] =~= p);
}

// ── IPv6 text parses back ────────────────────────────────────────────────────

/// Whether `c` is a lower-case hex digit.
pub open spec fn is_lower_hex(c: char) -> bool {
    ('0' <= c && c <= '9') || ('a' <= c && c <= 'f')
}

proof fn lemma_nibble_value(n: int)
    requires
        0 <= n < 16,
    ensures
        is_lower_hex(nibble_char(n)),
        hex_char_value(nibble_char(n)) == Some(n),
{
}

/// A group's hex text: one to four lower-case hex digits whose value is the
/// group.
proof fn lemma_hex_group(v: nat)
    requires
        v < 65536,
    ensures
        1 <= hex_group(v).len() <= 4,
        forall|i: int| 0 <= i < hex_group(v).len() ==> is_lower_hex(#[trigger] hex_group(v)[i]),
        h16_spec(hex_group(v)) == Some(v as int),
    decreases v,
{
    let g = hex_group(v);
    if v < 16 {
        lemma_nibble_value(v as int);
        assert(g.drop_last() =~= Seq::<char>::empty());
        assert(hex_digits_value(Seq::<char>::empty()) == 0);
        assert(hex_digits_value(g) == v);
    } else {
        lemma_hex_group(v / 16);
        lemma_nibble_value((v % 16) as int);
        let h = hex_group(v / 16);
        assert(g == h.push(nibble_char((v % 16) as int)));
        assert(g.drop_last() =~= h);
        if v / 16 < 16 {
            assert(h.len() == 1);
        } else if v / 256 < 16 {
            assert(hex_group(v / 16) == hex_group(v / 256).push(nibble_char(((v / 16) % 16) as int)));
            lemma_hex_group(v / 256);
            assert(hex_group(v / 256).len() == 1);
        } else {
            assert(hex_group(v / 16) == hex_group(v / 256).push(nibble_char(((v / 16) % 16) as int)));
            assert(hex_group(v / 256) == hex_group(v / 4096).push(nibble_char(((v / 256) % 16) as int)));
            lemma_hex_group(v / 4096);
            assert(v / 4096 < 16);
            assert(hex_group(v / 4096).len() == 1);
        }
        assert forall|i: int| 0 <= i < g.len() implies is_lower_hex(#[trigger] g[i]) by {
            if i < h.len() {
                assert(g[i] == h[i]);
            }
        }
        assert forall|i: int| 0 <= i < g.len() implies #[trigger] hex_char_value(g[i]) is Some by {
            assert(is_lower_hex(g[i]));
        }
        assert forall|i: int| 0 <= i < h.len() implies #[trigger] hex_char_value(h[i]) is Some by {
            assert(is_lower_hex(h[i]));
        }
        assert(hex_digits_value(g) == hex_digits_value(h) * 16 + (v % 16));
        assert(v == (v / 16) * 16 + v % 16);
    }
}

/// Groups whose values fit in 16 bits.
pub open spec fn groups_fit(segs: Seq<int>) -> bool {
    forall|i: int| 0 <= i < segs.len() ==> 0 <= #[trigger] segs[i] < 65536
}

/// Whether no two colons are adjacent in `t`, and it neither starts nor
/// ends with one.
pub open spec fn single_colons(t: Seq<char>) -> bool {
    &&& t.len() > 0
    &&& t[0] != ':'
    &&& t.last() != ':'
    &&& forall|k: int| 0 <= k < t.len() - 1 ==> !(#[trigger] t[k] == ':' && t[k + 1] == ':')
}

/// The hex text of groups splits at its colons into the groups' texts,
/// each of which reads back as its group.
proof fn lemma_groups_text_split(segs: Seq<int>)
    requires
        segs.len() > 0,
        groups_fit(segs),
    ensures
        split_spec(groups_text(segs), ':') == segs.map_values(|v: int| hex_group(v as nat)),
        all_h16(split_spec(groups_text(segs), ':')),
        h16_values(split_spec(groups_text(segs), ':')) == segs,
        single_colons(groups_text(segs)),
    decreases segs.len(),
{
    let v = segs.drop_last();
    let x = segs.last();
    let g = hex_group(x as nat);
    lemma_hex_group(x as nat);
    assert(segs == v.push(x));
    lemma_groups_text_push(v, x);
    assert forall|m: int| 0 <= m < g.len() implies #[trigger] g[m] != ':' by {
        assert(is_lower_hex(g[m]));
    }
    crate::text::lemma_split_no_sep(g, ':');
    let f = |w: int| hex_group(w as nat);
    if v.len() == 0 {
        assert(groups_text(segs) == g);
        assert(segs.map_values(f) =~= seq![g]);
        assert(is_lower_hex(g[0]) && is_lower_hex(g.last()));
    } else {
        assert(groups_fit(v)) by {
            assert forall|i: int| 0 <= i < v.len() implies 0 <= #[trigger] v[i] < 65536 by {
                assert(v[i] == segs[i]);
            }
        }
        lemma_groups_text_split(v);
        let t = groups_text(v);
        crate::text::lemma_split_concat(t, g, ':');
        assert(groups_text(segs) == t + seq![':'] + g);
        assert(segs.map_values(f) =~= v.map_values(f) + seq![g]);
        let u = t + seq![':'] + g;
        assert(is_lower_hex(g[0]) && is_lower_hex(g.last()));
        assert forall|k: int| 0 <= k < u.len() - 1 implies !(#[trigger] u[k] == ':' && u[k + 1]
            == ':') by {
            if k < t.len() - 1 {
                assert(u[k] == t[k] && u[k + 1] == t[k + 1]);
            } else if k == t.len() - 1 {
                assert(u[k] == t.last());
            } else if k == t.len() {
                assert(u[k + 1] == g[0]);
            } else {
                assert(u[k] == g[k - t.len() - 1]);
            }
        }
        assert(u[0] == t[0]);
        assert(u.last() == g.last());
    }
    let ps = split_spec(groups_text(segs), ':');
    assert forall|i: int| 0 <= i < ps.len() implies #[trigger] h16_spec(ps[i]) is Some by {
        lemma_hex_group(segs[i] as nat);
    }
    assert(h16_values(ps) =~= segs) by {
        assert forall|i: int| 0 <= i < ps.len() implies #[trigger] h16_values(ps)[i] == segs[i] by {
            lemma_hex_group(segs[i] as nat);
        }
    }
}

proof fn lemma_no_double_colon(s: Seq<char>, i: int)
    requires
        0 <= i,
        forall|k: int| i <= k < s.len() - 1 ==> !(#[trigger] s[k] == ':' && s[k + 1] == ':'),
    ensures
        first_double_colon(s, i) is None,
    decreases s.len() - i,
{
    if i + 1 < s.len() {
        lemma_no_double_colon(s, i + 1);
    }
}

proof fn lemma_double_colon_at(s: Seq<char>, i: int, j: int)
    requires
        0 <= i <= j,
        j + 1 < s.len(),
        s[j] == ':' && s[j + 1] == ':',
        forall|k: int| i <= k < j ==> !(#[trigger] s[k] == ':' && s[k + 1] == ':'),
    ensures
        first_double_colon(s, i) == Some(j),
    decreases j - i,
{
    if i < j {
        lemma_double_colon_at(s, i + 1, j);
    }
}

/// Sixteen octets are the octets of their eight groups.
proof fn lemma_segments_octets(o: Seq<u8>)
    requires
        o.len() == 16,
    ensures
        groups_fit(segments(o)),
        groups_octets(segments(o)) == o,
{
    let g = segments(o);
    assert forall|i: int| 0 <= i < 8 implies 0 <= #[trigger] g[i] < 65536 by {
        assert(0 <= o[2 * i] < 256 && 0 <= o[2 * i + 1] < 256);
    }
    assert forall|k: int| 0 <= k < 16 implies #[trigger] groups_octets(g)[k] == o[k] by {
        let i = k / 2;
        let a = o[2 * i] as int;
        let b = o[2 * i + 1] as int;
        assert((a * 256 + b) / 256 == a && (a * 256 + b) % 256 == b) by (nonlinear_arith)
            requires
                0 <= a < 256,
                0 <= b < 256,
        ;
        if k % 2 == 0 {
            assert(k == 2 * i);
        } else {
            assert(k == 2 * i + 1);
        }
    }
    assert(groups_octets(g) =~= o);
}

proof fn lemma_zero_run_zeros(segs: Seq<int>, s: int, k: int)
    requires
        0 <= s,
        0 <= k < zero_run(segs, s),
    ensures
        s + k < segs.len(),
        segs[s + k] == 0,
    decreases k,
{
    if k > 0 {
        lemma_zero_run_zeros(segs, s + 1, k - 1);
    }
}

/// Whether `c` does not occur in `s`.
pub open spec fn lacks(s: Seq<char>, c: char) -> bool {
    forall|m: int| 0 <= m < s.len() ==> #[trigger] s[m] != c
}

proof fn lemma_lacks_concat(a: Seq<char>, b: Seq<char>, c: char)
    requires
        lacks(a, c),
        lacks(b, c),
    ensures
        lacks(a + b, c),
{
    assert forall|m: int| 0 <= m < (a + b).len() implies #[trigger] (a + b)[m] != c by {
        if m < a.len() {
            assert((a + b)[m] == a[m]);
        } else {
            assert((a + b)[m] == b[m - a.len()]);
        }
    }
}

proof fn lemma_dotted_quad_shape(q: Seq<u8>)
    requires
        q.len() == 4,
    ensures
        lacks(dotted_quad(q), ':'),
        dotted_quad(q).len() >= 7,
{
    let dot = seq!['.'];
    assert(lacks(dot, ':'));
    assert forall|i: int| 0 <= i < 4 implies lacks(dec_spec(#[trigger] q[i] as nat), ':') by {
        crate::text::lemma_dec_digits(q[i] as nat);
        let d = dec_spec(q[i] as nat);
        assert forall|m: int| 0 <= m < d.len() implies #[trigger] d[m] != ':' by {
            assert('0' <= d[m] && d[m] <= '9');
        }
    }
    let d0 = dec_spec(q[0] as nat);
    let d1 = dec_spec(q[1] as nat);
    let d2 = dec_spec(q[2] as nat);
    let d3 = dec_spec(q[3] as nat);
    crate::text::lemma_dec_digits(q[0] as nat);
    crate::text::lemma_dec_digits(q[1] as nat);
    crate::text::lemma_dec_digits(q[2] as nat);
    crate::text::lemma_dec_digits(q[3] as nat);
    lemma_lacks_concat(d0, dot, ':');
    lemma_lacks_concat(d0 + dot, d1, ':');
    lemma_lacks_concat(d0 + dot + d1, dot, ':');
    lemma_lacks_concat(d0 + dot + d1 + dot, d2, ':');
    lemma_lacks_concat(d0 + dot + d1 + dot + d2, dot, ':');
    lemma_lacks_concat(d0 + dot + d1 + dot + d2 + dot, d3, ':');
}

/// Groups' text read back, whether or not there are any groups.
proof fn lemma_group_list_reads_back(g: Seq<int>)
    requires
        groups_fit(g),
    ensures
        head_groups(groups_text(g)) == Some(g),
        tail_groups(groups_text(g)) == Some(g),
        g.len() == 0 ==> groups_text(g).len() == 0,
        g.len() > 0 ==> single_colons(groups_text(g)),
{
    if g.len() == 0 {
        assert(g.map_values(|v: int| hex_group(v as nat)) =~= Seq::<Seq<char>>::empty());
        assert(groups_text(g) =~= Seq::<char>::empty());
        assert(g =~= Seq::<int>::empty());
    } else {
        lemma_groups_text_split(g);
    }
}

proof fn lemma_ipv6_mapped_parses(o: Seq<u8>)
    requires
        o.len() == 16,
        is_ipv4_mapped(o),
    ensures
        ipv6_parse_spec(ipv6_text(o)) == Some(o),
{
    let q = o.skip(12);
    let dq = dotted_quad(q);
    lemma_dotted_quad_parses(q);
    lemma_dotted_quad_shape(q);
    let ffff = seq!['f', 'f', 'f', 'f'];
    let text = seq![':', ':', 'f', 'f', 'f', 'f', ':'] + dq;
    assert(ipv6_text(o) == text);
    lemma_double_colon_at(text, 0, 0);
    assert(text.take(0) =~= Seq::<char>::empty());
    let tail = text.skip(2);
    assert(tail =~= ffff + seq![':'] + dq);
    crate::text::lemma_split_no_sep(ffff, ':');
    crate::text::lemma_split_no_sep(dq, ':');
    crate::text::lemma_split_concat(ffff, dq, ':');
    let ps = split_spec(tail, ':');
    assert(ps =~= seq![ffff, dq]);
    assert(h16_spec(dq) is None);
    assert(!all_h16(ps));
    assert(ps.drop_last() =~= seq![ffff]);
    assert(ps.last() == dq);
    assert(hex_digits_value(ffff) == 65535) by {
        reveal_with_fuel(hex_digits_value, 5);
        assert(ffff.drop_last().drop_last().drop_last().drop_last() =~= Seq::<char>::empty());
    }
    assert(h16_spec(ffff) == Some(65535int));
    assert(all_h16(ps.drop_last()));
    let tg = seq![65535int, q[0] as int * 256 + q[1] as int, q[2] as int * 256 + q[3] as int];
    assert(h16_values(ps.drop_last()) + seq![
        q[0] as int * 256 + q[1] as int,
        q[2] as int * 256 + q[3] as int,
    ] =~= tg);
    assert(tail_groups(tail) == Some(tg));
    let z = Seq::new(5nat, |k: int| 0int);
    let all = Seq::<int>::empty() + z + tg;
    assert forall|k: int| 0 <= k < 16 implies #[trigger] groups_octets(all)[k] == o[k] by {
        let i = k / 2;
        if k < 10 {
            assert(all[i] == 0);
            assert(o[k] == 0);
        } else if k < 12 {
            assert(all[i] == 65535);
        } else {
            let a = o[2 * i] as int;
            let b = o[2 * i + 1] as int;
            assert(all[i] == a * 256 + b);
            assert((a * 256 + b) / 256 == a && (a * 256 + b) % 256 == b) by (nonlinear_arith)
                requires
                    0 <= a < 256,
                    0 <= b < 256,
            ;
            if k % 2 == 0 {
                assert(k == 2 * i);
            } else {
                assert(k == 2 * i + 1);
            }
        }
    }
    assert(groups_octets(all) =~= o);
}

/// Groups before and after a `::` parse back, the `::` standing for the
/// zero groups in between.
proof fn lemma_compressed_text_parses(h: Seq<int>, t: Seq<int>)
    requires
        groups_fit(h),
        groups_fit(t),
        h.len() + t.len() <= 7,
    ensures
        ipv6_parse_spec(groups_text(h) + seq![':', ':'] + groups_text(t)) == Some(
            groups_octets(h + Seq::new((8 - h.len() - t.len()) as nat, |k: int| 0int) + t),
        ),
{
    let a = groups_text(h);
    let b = groups_text(t);
    lemma_group_list_reads_back(h);
    lemma_group_list_reads_back(t);
    let text = a + seq![':', ':'] + b;
    assert forall|k: int| 0 <= k < a.len() implies !(#[trigger] text[k] == ':' && text[k + 1]
        == ':') by {
        if k < a.len() - 1 {
            assert(text[k] == a[k] && text[k + 1] == a[k + 1]);
        } else {
            assert(text[k] == a.last());
        }
    }
    lemma_double_colon_at(text, 0, a.len() as int);
    assert(text.take(a.len() as int) =~= a);
    assert(text.skip(a.len() as int + 2) =~= b);
}

proof fn lemma_zero_gap(segs: Seq<int>, st: int, l: nat)
    requires
        0 <= st,
        zero_run(segs, st) == l,
        st + l <= segs.len(),
    ensures
        segs.take(st) + Seq::new(l, |k: int| 0int) + segs.skip(st + l) == segs,
{
    let z = Seq::new(l, |k: int| 0int);
    assert forall|k: int| 0 <= k < segs.len() implies #[trigger] (segs.take(st) + z + segs.skip(
        st + l,
    ))[k] == segs[k] by {
        if st <= k < st + l {
            lemma_zero_run_zeros(segs, st, k - st);
        }
    }
    assert(segs.take(st) + z + segs.skip(st + l) =~= segs);
}

#[verifier::spinoff_prover]
#[verifier::rlimit(50)]
proof fn lemma_ipv6_compressed_parses(o: Seq<u8>)
    requires
        o.len() == 16,
        !is_ipv4_mapped(o),
        longest_zero_run(segments(o), 0) > 1,
    ensures
        ipv6_parse_spec(ipv6_text(o)) == Some(o),
{
    lemma_segments_octets(o);
    let segs = segments(o);
    let l = longest_zero_run(segs, 0);
    lemma_first_run_found(segs, 0);
    let st = first_run_of(segs, 0, l);
    lemma_zero_run_bound(segs, st);
    let h = segs.take(st);
    let t = segs.skip(st + l);
    assert(groups_fit(h));
    assert(groups_fit(t)) by {
        assert forall|i: int| 0 <= i < t.len() implies 0 <= #[trigger] t[i] < 65536 by {
            assert(t[i] == segs[st + l + i]);
        }
    }
    assert(ipv6_text(o) == groups_text(h) + seq![':', ':'] + groups_text(t));
    lemma_compressed_text_parses(h, t);
    assert(8 - h.len() - t.len() == l);
    lemma_zero_gap(segs, st, l);
}

proof fn lemma_ipv6_plain_parses(o: Seq<u8>)
    requires
        o.len() == 16,
        !is_ipv4_mapped(o),
        longest_zero_run(segments(o), 0) <= 1,
    ensures
        ipv6_parse_spec(ipv6_text(o)) == Some(o),
{
    lemma_segments_octets(o);
    let segs = segments(o);
    lemma_groups_text_split(segs);
    let text = groups_text(segs);
    assert(ipv6_text(o) == text);
    lemma_no_double_colon(text, 0);
}

/// The text an IPv6 address displays as parses back to the address, so
/// displaying and parsing IPv6 addresses are inverse (and an AAAA record's
/// value read back parses to the address it was built from).
pub proof fn lemma_ipv6_text_parses(o: Seq<u8>)
    requires
        o.len() == 16,
    ensures
        ipv6_parse_spec(ipv6_text(o)) == Some(o),
{
    if is_ipv4_mapped(o) {
        lemma_ipv6_mapped_parses(o);
    } else if longest_zero_run(segments(o), 0) > 1 {
        lemma_ipv6_compressed_parses(o);
    } else {
        lemma_ipv6_plain_parses(o);
    }
}

/// `split_once_spec` cuts a text at its first separator, which it drops.
proof fn lemma_split_once_join(s: Seq<char>, c: char)
    ensures
        split_once_spec(s, c).1 matches Some(t) ==> s == split_once_spec(s, c).0 + seq![c] + t,
    decreases s.len(),
{
    if s.len() > 0 {
        if s[0] == c {
            assert(s =~= Seq::<char>::empty() + seq![c] + s.drop_first());
        } else {
            lemma_split_once_join(s.drop_first(), c);
            let r = split_once_spec(s.drop_first(), c);
            if let Some(t) = r.1 {
                assert(s.drop_first() == r.0 + seq![c] + t);
                assert(s =~= seq![s[0]] + s.drop_first());
                assert(s =~= (seq![s[0]] + r.0) + seq![c] + t);
            }
        }
    }
}

/// A host or target name as a record reads it back: not the apex, with no
/// trailing dot, carried faithfully by the name encoding (at most 255
/// labels, each non-empty and at most 255 bytes).
pub open spec fn canonical_name(n: Seq<char>) -> bool {
    &&& !is_apex(n)
    &&& trim_end_char_spec(n, '.') == n
    &&& name_labels(n).len() <= 255
    &&& labels_well_formed(name_labels(n))
}

/// Whether `value`, written as a record of type `kind`, is in the form the
/// record is read back in: any IPv4 address `Ipv4Addr` accepts; an IPv6
/// address in its canonical text; a canonical target name for PTR, NS and
/// CNAME; `<priority> <host>` for MX with the priority in plain decimal and
/// a canonical host; TXT of at most 255 bytes.
pub open spec fn record_value_canonical(kind: Seq<char>, value: Seq<char>) -> bool {
    ||| kind == "A"@ && ipv4_spec(value) is Some
    ||| kind == "AAAA"@ && ipv6_parse_spec(value) is Some && ipv6_text(ipv6_parse_spec(value)->0)
        == value
    ||| (kind == "PTR"@ || kind == "NS"@ || kind == "CNAME"@) && canonical_name(value)
    ||| kind == "MX"@ && split_once_spec(value, ' ').1 is Some && canonical_name(
        split_once_spec(value, ' ').1->0,
    ) && parse_int_spec(split_once_spec(value, ' ').0, false, 0, 65535) is Some && dec_spec(
        parse_int_spec(split_once_spec(value, ' ').0, false, 0, 65535)->0 as nat,
    ) == split_once_spec(value, ' ').0
    ||| kind == "TXT"@ && encode_utf8(value).len() <= 255
}

/// A record read back from the value built for it gives its type, its
/// value and its TTL unchanged, for every value already in the form the
/// record is read back in.
pub proof fn lemma_record_roundtrip(kind: Seq<char>, value: Seq<char>, ttl: u32)
    requires
        record_value_canonical(kind, value),
    ensures
        build_record_spec(kind, value, ttl) is Ok,
        parse_record_spec(build_record_spec(kind, value, ttl)->Ok_0) == Some((kind, value, ttl)),
{
    lemma_kind_names_distinct();
    if kind == "A"@ {
        lemma_a_record_roundtrip(value, ttl);
    } else if kind == "AAAA"@ {
        lemma_aaaa_record_roundtrip(value, ttl);
    } else if kind == "PTR"@ || kind == "NS"@ || kind == "CNAME"@ {
        lemma_name_record_roundtrip(kind, value, ttl);
    } else if kind == "MX"@ {
        lemma_split_once_join(value, ' ');
        lemma_mx_record_roundtrip(value, ttl);
        let parts = split_once_spec(value, ' ');
        assert(value == parts.0 + seq![' '] + parts.1->0);
    } else {
        lemma_txt_record_roundtrip(value, ttl);
    }
}

/// The header of a static zone record, byte by byte: version 5 and rank
/// 0xF0 in bytes 4 and 5, zero flags and serial in bytes 6 to 11, the TTL
/// big-endian in bytes 12 to 15, and a zero reserved word and timestamp in
/// bytes 16 to 23 (timestamp 0 marks a static record, which aging never
/// removes).
pub open spec fn static_record_header(b: Seq<u8>, ttl: u32) -> bool {
    &&& b.len() >= 24
    &&& b[4] == 5 && b[5] == 0xf0
    &&& forall|i: int| 6 <= i < 12 ==> b[i] == 0
    &&& b[12] as int * 16777216 + b[13] as int * 65536 + b[14] as int * 256 + b[15] as int
        == ttl as int
    &&& forall|i: int| 16 <= i < 24 ==> b[i] == 0
}

/// The `wType` field (bytes 2 and 3, little-endian) of a record of the
/// named type holds the type's number from the DNS standard: A 1, NS 2,
/// CNAME 5, PTR 12, MX 15, TXT 16, AAAA 28.
pub open spec fn type_number_written(kind: Seq<char>, b: Seq<u8>) -> bool {
    &&& b.len() >= 4 && b[3] == 0
    &&& kind == "A"@ ==> b[2] == 1
    &&& kind == "NS"@ ==> b[2] == 2
    &&& kind == "CNAME"@ ==> b[2] == 5
    &&& kind == "PTR"@ ==> b[2] == 12
    &&& kind == "MX"@ ==> b[2] == 15
    &&& kind == "TXT"@ ==> b[2] == 16
    &&& kind == "AAAA"@ ==> b[2] == 28
}

/// The type name read for a record follows the DNS standard's number in
/// its `wType` field: 2 NS, 5 CNAME, 6 SOA, 12 PTR, 16 TXT, and, when the
/// data is long enough to hold the value, 1 A, 28 AAAA, 15 MX, 33 SRV.
pub open spec fn type_name_read(b: Seq<u8>, kind: Seq<char>) -> bool {
    let data_len = b[0] as int + 256 * b[1] as int;
    let room = if data_len < b.len() - 24 { data_len } else { b.len() - 24 };
    &&& b[3] == 0 && b[2] == 2 ==> kind == "NS"@
    &&& b[3] == 0 && b[2] == 5 ==> kind == "CNAME"@
    &&& b[3] == 0 && b[2] == 6 ==> kind == "SOA"@
    &&& b[3] == 0 && b[2] == 12 ==> kind == "PTR"@
    &&& b[3] == 0 && b[2] == 16 ==> kind == "TXT"@
    &&& b[3] == 0 && b[2] == 1 && room >= 4 ==> kind == "A"@
    &&& b[3] == 0 && b[2] == 28 && room >= 16 ==> kind == "AAAA"@
    &&& b[3] == 0 && b[2] == 15 && room >= 2 ==> kind == "MX"@
    &&& b[3] == 0 && b[2] == 33 && room >= 6 ==> kind == "SRV"@
}

/// Every record the builder writes is a static zone record whose `wType`
/// is the standard number of its type name.
pub proof fn lemma_built_record_header(kind: Seq<char>, value: Seq<char>, ttl: u32)
    ensures
        build_record_spec(kind, value, ttl) is Ok ==> static_record_header(
            build_record_spec(kind, value, ttl)->Ok_0,
            ttl,
        ) && type_number_written(kind, build_record_spec(kind, value, ttl)->Ok_0),
{
    lemma_kind_names_distinct();
    if let Ok((rtype, data)) = record_data_spec(kind, value) {
        let b = record_bytes_spec(rtype, data, ttl);
        assert(b[12] as int == ttl / 16777216);
        assert(b[13] as int == (ttl / 65536) % 256);
        assert(b[14] as int == (ttl / 256) % 256);
        assert(b[15] as int == ttl % 256);
        assert(b[2] == rtype % 256 && b[3] == rtype / 256);
    }
}

/// A decoded record's type name is the one its `wType` field numbers.
pub proof fn lemma_read_record_type(d: Seq<u8>)
    ensures
        parse_record_spec(d) is Some ==> type_name_read(d, (parse_record_spec(d)->0).0),
{
    reveal_strlit("SOA");
    reveal_strlit("(zone authority)");
    if d.len() >= 24 && le16(d, 2) != 0 {
        let p = record_payload(d);
        let data_len = d[0] as int + 256 * d[1] as int;
        assert(p.len() == if data_len < d.len() - 24 { data_len } else { d.len() - 24 });
    }
}

} // verus!

//! Character-level string helpers and their specifications.
//!
//! Strings are reasoned about through their views, sequences of `char`.
//! Splitting, joining, trimming, decimal formatting and decimal parsing
//! follow the behaviour of the corresponding `str` and integer methods.

use vstd::prelude::*;
use vstd::std_specs::iter::IteratorSpec;
use vstd::string::StringExecFns;
use vstd::utf8::*;

verus! {

broadcast use vstd::string::group_string_axioms;

// ── specifications ───────────────────────────────────────────────────────────

/// Pieces of `s` between occurrences of `sep`, as `str::split` yields them:
/// one more piece than there are separators.
pub open spec fn split_spec(s: Seq<char>, sep: char) -> Seq<Seq<char>>
    decreases s.len(),
{
    if s.len() == 0 {
        seq![Seq::<char>::empty()]
    } else {
        let prev = split_spec(s.drop_last(), sep);
        if s.last() == sep {
            prev.push(Seq::<char>::empty())
        } else {
            prev.drop_last().push(prev.last().push(s.last()))
        }
    }
}

/// The pieces joined with `sep` between consecutive pieces (`[T]::join`).
pub open spec fn join_spec(pieces: Seq<Seq<char>>, sep: Seq<char>) -> Seq<char>
    decreases pieces.len(),
{
    if pieces.len() == 0 {
        Seq::<char>::empty()
    } else if pieces.len() == 1 {
        pieces[0]
    } else {
        join_spec(pieces.drop_last(), sep) + sep + pieces.last()
    }
}

/// Unicode `White_Space`, the property `char::is_whitespace` tests.
pub open spec fn is_whitespace(c: char) -> bool {
    let v = c as u32;
    ||| (0x09 <= v && v <= 0x0d)
    ||| v == 0x20
    ||| v == 0x85
    ||| v == 0xa0
    ||| v == 0x1680
    ||| (0x2000 <= v && v <= 0x200a)
    ||| v == 0x2028
    ||| v == 0x2029
    ||| v == 0x202f
    ||| v == 0x205f
    ||| v == 0x3000
}

/// `s` without its leading whitespace.
pub open spec fn trim_start_spec(s: Seq<char>) -> Seq<char>
    decreases s.len(),
{
    if s.len() > 0 && is_whitespace(s[0]) {
        trim_start_spec(s.drop_first())
    } else {
        s
    }
}

/// `s` without its trailing whitespace.
pub open spec fn trim_end_spec(s: Seq<char>) -> Seq<char>
    decreases s.len(),
{
    if s.len() > 0 && is_whitespace(s.last()) {
        trim_end_spec(s.drop_last())
    } else {
        s
    }
}

/// `str::trim`: leading and trailing whitespace removed.
pub open spec fn trim_spec(s: Seq<char>) -> Seq<char> {
    trim_end_spec(trim_start_spec(s))
}

/// `str::trim_end_matches(c)`: every trailing `c` removed.
pub open spec fn trim_end_char_spec(s: Seq<char>, c: char) -> Seq<char>
    decreases s.len(),
{
    if s.len() > 0 && s.last() == c {
        trim_end_char_spec(s.drop_last(), c)
    } else {
        s
    }
}

/// Whether `p` is a prefix of `s`.
pub open spec fn has_prefix(s: Seq<char>, p: Seq<char>) -> bool {
    p.len() <= s.len() && s.take(p.len() as int) == p
}

/// Strict lexicographic order by code point, which is the order `String`
/// comparison gives (UTF-8 preserves code point order).
pub open spec fn seq_lt(a: Seq<char>, b: Seq<char>) -> bool
    decreases a.len(),
{
    if a.len() == 0 {
        b.len() > 0
    } else if b.len() == 0 {
        false
    } else if a[0] != b[0] {
        (a[0] as u32) < (b[0] as u32)
    } else {
        seq_lt(a.drop_first(), b.drop_first())
    }
}

/// The ASCII digit for `d` (0 to 9).
pub open spec fn digit_char(d: int) -> char {
    (48 + d) as char
}

/// Decimal digits of `n`, without leading zeros (`Display` for integers).
pub open spec fn dec_spec(n: nat) -> Seq<char>
    decreases n,
{
    if n < 10 {
        seq![digit_char(n as int)]
    } else {
        dec_spec(n / 10).push(digit_char((n % 10) as int))
    }
}

/// `Display` of a signed integer.
pub open spec fn dec_signed_spec(n: int) -> Seq<char> {
    if n < 0 {
        seq!['-'] + dec_spec((-n) as nat)
    } else {
        dec_spec(n as nat)
    }
}

/// Whether every character is an ASCII decimal digit.
pub open spec fn all_digits(s: Seq<char>) -> bool {
    forall|i: int| 0 <= i < s.len() ==> '0' <= #[trigger] s[i] && s[i] <= '9'
}

/// The value of a string of decimal digits.
pub open spec fn digits_value(s: Seq<char>) -> nat
    decreases s.len(),
{
    if s.len() == 0 {
        0
    } else {
        digits_value(s.drop_last()) * 10 + ((s.last() as u32) - 48) as nat
    }
}

/// `FromStr` for integers in `[lo, hi]`: an optional sign (`-` only when
/// `signed`) followed by at least one decimal digit, nothing else.
pub open spec fn parse_int_spec(s: Seq<char>, signed: bool, lo: int, hi: int) -> Option<int> {
    if s.len() == 0 {
        None
    } else {
        let neg = s[0] == '-' && signed;
        let digits = if s[0] == '+' || neg {
            s.drop_first()
        } else {
            s
        };
        let v = if neg {
            -(digits_value(digits) as int)
        } else {
            digits_value(digits) as int
        };
        if digits.len() == 0 || !all_digits(digits) || v < lo || hi < v {
            None
        } else {
            Some(v)
        }
    }
}

/// ASCII letters mapped to lower case, every other character kept.
pub open spec fn ascii_lower(s: Seq<char>) -> Seq<char> {
    s.map_values(|c: char| if 'A' <= c && c <= 'Z' { ((c as u32) + 32) as char } else { c })
}

/// ASCII letters mapped to upper case, every other character kept.
pub open spec fn ascii_upper(s: Seq<char>) -> Seq<char> {
    s.map_values(|c: char| if 'a' <= c && c <= 'z' { ((c as u32) - 32) as char } else { c })
}

/// What `str::to_lowercase` returns for a string (full Unicode case mapping).
pub uninterp spec fn lowercase(s: Seq<char>) -> Seq<char>;

/// What `str::to_uppercase` returns for a string (full Unicode case mapping).
pub uninterp spec fn uppercase(s: Seq<char>) -> Seq<char>;

/// What `String::from_utf8_lossy` returns for a byte sequence that is not
/// valid UTF-8.
pub uninterp spec fn utf8_lossy(bytes: Seq<u8>) -> Seq<char>;

/// `String::from_utf8_lossy`: the decoded text for valid UTF-8, and the
/// replacement-character rendering otherwise.
pub open spec fn lossy_text(bytes: Seq<u8>) -> Seq<char> {
    if valid_utf8(bytes) {
        decode_utf8(bytes)
    } else {
        utf8_lossy(bytes)
    }
}

// ── trusted calls into std ───────────────────────────────────────────────────

/// Appends one character (std `String::push`).
#[verifier::external_body]
pub(crate) fn push_char(s: &mut String, c: char)
    ensures
        final(s)@ == old(s)@.push(c),
{
    s.push(c);
}

/// std `str::to_lowercase`. Its result is named by `lowercase`; on ASCII input
/// the Unicode lower-case mapping is the ASCII one.
#[verifier::external_body]
pub(crate) fn to_lowercase(s: &str) -> (r: String)
    ensures
        r@ == lowercase(s@),
        is_ascii_chars(s@) ==> r@ == ascii_lower(s@),
{
    s.to_lowercase()
}

/// std `str::to_uppercase`. Its result is named by `uppercase`; on ASCII input
/// the Unicode upper-case mapping is the ASCII one.
#[verifier::external_body]
pub(crate) fn to_uppercase(s: &str) -> (r: String)
    ensures
        r@ == uppercase(s@),
        is_ascii_chars(s@) ==> r@ == ascii_upper(s@),
{
    s.to_uppercase()
}

/// std `String::from_utf8_lossy` (made owned). On valid UTF-8 it is the
/// decoded text, as its documentation states; otherwise its result is named
/// by `utf8_lossy`.
#[verifier::external_body]
pub(crate) fn lossy_string(bytes: &[u8]) -> (r: String)
    ensures
        r@ == lossy_text(bytes@),
        !valid_utf8(bytes@) ==> r@ == utf8_lossy(bytes@),
{
    String::from_utf8_lossy(bytes).into_owned()
}

// ── executable helpers ───────────────────────────────────────────────────────

/// The characters of `s`, in order.
pub fn chars_of(s: &str) -> (v: Vec<char>)
    ensures
        v@ == s@,
{
    let mut v: Vec<char> = Vec::new();
    let mut it = s.chars();
    loop
        invariant
            it.remaining() == s@.skip(v@.len() as int),
            v@ == s@.take(v@.len() as int),
            v@.len() <= s@.len(),
        ensures
            v@ == s@,
        decreases s@.len() - v@.len(),
    {
        match it.next() {
            Some(c) => {
                v.push(c);
                assert(s@.skip((v@.len() - 1) as int).drop_first() =~= s@.skip(v@.len() as int));
                assert(v@ =~= s@.take(v@.len() as int));
            },
            None => {
                assert(s@.skip(v@.len() as int).len() == 0);
                assert(v@ =~= s@);
                break;
            },
        }
    }
    v
}

/// A `String` holding exactly the given characters.
pub fn string_of(v: &Vec<char>) -> (s: String)
    ensures
        s@ == v@,
{
    let mut s = String::new();
    let mut i: usize = 0;
    while i < v.len()
        invariant
            i <= v@.len(),
            s@ == v@.take(i as int),
        decreases v@.len() - i,
    {
        push_char(&mut s, v[i]);
        i += 1;
        assert(s@ =~= v@.take(i as int));
    }
    assert(v@.take(v@.len() as int) =~= v@);
    s
}

/// A fresh `String` copy of `s`.
pub fn owned(s: &str) -> (r: String)
    ensures
        r@ == s@,
{
    String::from_str(s)
}

/// `a` followed by `b`.
pub fn concat2(a: &str, b: &str) -> (r: String)
    ensures
        r@ == a@ + b@,
{
    let mut r = String::from_str(a);
    r.append(b);
    r
}

/// `a`, `b` and `c` in sequence.
pub fn concat3(a: &str, b: &str, c: &str) -> (r: String)
    ensures
        r@ == a@ + b@ + c@,
{
    let mut r = String::from_str(a);
    r.append(b);
    r.append(c);
    r
}

/// Splitting always yields at least one piece.
pub proof fn lemma_split_nonempty(s: Seq<char>, sep: char)
    ensures
        split_spec(s, sep).len() >= 1,
    decreases s.len(),
{
    if s.len() > 0 {
        lemma_split_nonempty(s.drop_last(), sep);
    }
}


/// Text without the separator splits into one piece, itself.
pub proof fn lemma_split_no_sep(a: Seq<char>, sep: char)
    requires
        forall|m: int| 0 <= m < a.len() ==> a[m] != sep,
    ensures
        split_spec(a, sep) == seq![a],
    decreases a.len(),
{
    if a.len() > 0 {
        lemma_split_no_sep(a.drop_last(), sep);
        assert(a.drop_last().push(a.last()) =~= a);
    } else {
        assert(a =~= Seq::<char>::empty());
        assert(split_spec(a, sep) =~= seq![a]);
    }
}

/// Splitting at a separator splits both sides.
pub proof fn lemma_split_concat(a: Seq<char>, b: Seq<char>, sep: char)
    ensures
        split_spec(a + seq![sep] + b, sep) == split_spec(a, sep) + split_spec(b, sep),
    decreases b.len(),
{
    let x = a + seq![sep] + b;
    lemma_split_nonempty(a, sep);
    if b.len() == 0 {
        assert(x.drop_last() =~= a);
        assert(split_spec(b, sep) =~= seq![Seq::<char>::empty()]);
        assert(split_spec(x, sep) =~= split_spec(a, sep) + split_spec(b, sep));
    } else {
        let b0 = b.drop_last();
        lemma_split_concat(a, b0, sep);
        lemma_split_nonempty(b0, sep);
        assert(x.drop_last() =~= a + seq![sep] + b0);
        let pa = split_spec(a, sep);
        let pb = split_spec(b0, sep);
        if b.last() == sep {
            assert(split_spec(x, sep) =~= pa + split_spec(b, sep));
        } else {
            assert((pa + pb).drop_last() =~= pa + pb.drop_last());
            assert((pa + pb).last() == pb.last());
            assert(split_spec(x, sep) =~= pa + split_spec(b, sep));
        }
    }
}

/// Joining the pieces of a split with the separator gives back the string.
pub proof fn lemma_join_split(s: Seq<char>, sep: char)
    ensures
        join_spec(split_spec(s, sep), seq![sep]) == s,
    decreases s.len(),
{
    if s.len() > 0 {
        let t = s.drop_last();
        let p = split_spec(t, sep);
        lemma_join_split(t, sep);
        lemma_split_nonempty(t, sep);
        let q = split_spec(s, sep);
        if s.last() == sep {
            assert(q == p.push(Seq::<char>::empty()));
            assert(q.drop_last() =~= p);
            assert(join_spec(q, seq![sep]) =~= s);
        } else {
            assert(q == p.drop_last().push(p.last().push(s.last())));
            assert(q.drop_last() =~= p.drop_last());
            if p.len() == 1 {
                assert(join_spec(p, seq![sep]) == p[0]);
                assert(join_spec(q, seq![sep]) =~= s);
            } else {
                assert(join_spec(p, seq![sep]) == join_spec(p.drop_last(), seq![sep]) + seq![sep]
                    + p.last());
                assert(q.len() == p.len());
                assert(q.last() == p.last().push(s.last()));
                assert(join_spec(q, seq![sep]) == join_spec(q.drop_last(), seq![sep]) + seq![sep]
                    + q.last());
                assert(s =~= t.push(s.last()));
                assert(join_spec(q, seq![sep]) =~= s);
            }
        }
    }
}

/// Splits `s` at every `sep`, as `str::split` does.
pub fn split_chars(s: &Vec<char>, sep: char) -> (r: Vec<Vec<char>>)
    ensures
        r.deep_view() == split_spec(s@, sep),
{
    let mut done: Vec<Vec<char>> = Vec::new();
    let mut cur: Vec<char> = Vec::new();
    let mut i: usize = 0;
    while i < s.len()
        invariant
            i <= s@.len(),
            done.deep_view().push(cur@) == split_spec(s@.take(i as int), sep),
        decreases s@.len() - i,
    {
        let c = s[i];
        proof {
            lemma_split_nonempty(s@.take(i as int), sep);
            assert(s@.take(i + 1).drop_last() =~= s@.take(i as int));
        }
        if c == sep {
            let ghost before = done.deep_view();
            let ghost piece = cur@;
            let finished = cur;
            done.push(finished);
            cur = Vec::new();
            assert(done@.last().deep_view() =~= piece);
            assert(done.deep_view() =~= before.push(piece));
            assert(done.deep_view() =~= split_spec(s@.take(i as int), sep));
        } else {
            cur.push(c);
            assert(done.deep_view() =~= split_spec(s@.take(i as int), sep).drop_last());
        }
        i += 1;
        assert(done.deep_view().push(cur@) =~= split_spec(s@.take(i as int), sep));
    }
    assert(s@.take(s@.len() as int) =~= s@);
    let ghost before = done.deep_view();
    let ghost piece = cur@;
    done.push(cur);
    assert(done@.last().deep_view() =~= piece);
    assert(done.deep_view() =~= before.push(piece));
    done
}

/// The strings joined with `sep` between consecutive ones.
pub fn join_strings(pieces: &Vec<String>, sep: &str) -> (r: String)
    ensures
        r@ == join_spec(pieces.deep_view(), sep@),
{
    let mut r = String::new();
    let mut i: usize = 0;
    while i < pieces.len()
        invariant
            i <= pieces@.len(),
            r@ == join_spec(pieces.deep_view().take(i as int), sep@),
        decreases pieces@.len() - i,
    {
        assert(pieces.deep_view().take(i + 1).drop_last() =~= pieces.deep_view().take(i as int));
        if i > 0 {
            r.append(sep);
        }
        r.append(pieces[i].as_str());
        i += 1;
    }
    assert(pieces.deep_view().take(pieces@.len() as int) =~= pieces.deep_view());
    r
}


/// `s` with leading and trailing whitespace removed (`str::trim`).
pub fn trim_chars(s: &Vec<char>) -> (r: Vec<char>)
    ensures
        r@ == trim_spec(s@),
{
    let mut start: usize = 0;
    assert(s@.skip(0) =~= s@);
    while start < s.len() && is_whitespace_char(s[start])
        invariant
            start <= s@.len(),
            trim_start_spec(s@) == trim_start_spec(s@.skip(start as int)),
        decreases s@.len() - start,
    {
        assert(s@.skip(start as int).drop_first() =~= s@.skip(start + 1));
        start += 1;
    }
    let ghost mid = s@.skip(start as int);
    assert(trim_start_spec(mid) == mid);
    let mut end: usize = s.len();
    assert(s@.subrange(start as int, end as int) =~= mid);
    while end > start && is_whitespace_char(s[end - 1])
        invariant
            start <= end <= s@.len(),
            trim_end_spec(mid) == trim_end_spec(s@.subrange(start as int, end as int)),
        decreases end,
    {
        assert(s@.subrange(start as int, end as int).drop_last() =~= s@.subrange(
            start as int,
            end - 1,
        ));
        end -= 1;
    }
    let mut r: Vec<char> = Vec::new();
    let mut k: usize = start;
    while k < end
        invariant
            start <= k <= end,
            end <= s@.len(),
            r@ == s@.subrange(start as int, k as int),
        decreases end - k,
    {
        r.push(s[k]);
        k += 1;
        assert(r@ =~= s@.subrange(start as int, k as int));
    }
    r
}

/// Whether `c` is Unicode whitespace (`char::is_whitespace`).
pub fn is_whitespace_char(c: char) -> (b: bool)
    ensures
        b == is_whitespace(c),
{
    let v = c as u32;
    (0x09 <= v && v <= 0x0d) || v == 0x20 || v == 0x85 || v == 0xa0 || v == 0x1680 || (0x2000
        <= v && v <= 0x200a) || v == 0x2028 || v == 0x2029 || v == 0x202f || v == 0x205f || v
        == 0x3000
}

/// `s` with every trailing `c` removed (`str::trim_end_matches`).
pub fn trim_end_char(s: &Vec<char>, c: char) -> (r: Vec<char>)
    ensures
        r@ == trim_end_char_spec(s@, c),
{
    let mut end: usize = s.len();
    assert(s@.take(end as int) =~= s@);
    while end > 0 && s[end - 1] == c
        invariant
            end <= s@.len(),
            trim_end_char_spec(s@, c) == trim_end_char_spec(s@.take(end as int), c),
        decreases end,
    {
        assert(s@.take(end as int).drop_last() =~= s@.take(end - 1));
        end -= 1;
    }
    let mut r: Vec<char> = Vec::new();
    let mut k: usize = 0;
    while k < end
        invariant
            k <= end <= s@.len(),
            r@ == s@.take(k as int),
        decreases end - k,
    {
        r.push(s[k]);
        k += 1;
        assert(r@ =~= s@.take(k as int));
    }
    r
}

/// Whether `p` is a prefix of `s`.
pub fn starts_with(s: &Vec<char>, p: &Vec<char>) -> (b: bool)
    ensures
        b == has_prefix(s@, p@),
{
    if p.len() > s.len() {
        return false;
    }
    let mut i: usize = 0;
    while i < p.len()
        invariant
            p@.len() <= s@.len(),
            i <= p@.len(),
            forall|j: int| 0 <= j < i ==> s@[j] == p@[j],
        decreases p@.len() - i,
    {
        if s[i] != p[i] {
            assert(s@.take(p@.len() as int)[i as int] != p@[i as int]);
            return false;
        }
        i += 1;
    }
    assert(s@.take(p@.len() as int) =~= p@);
    true
}

/// The first `n` characters of `s`.
pub fn take_chars(s: &Vec<char>, n: usize) -> (r: Vec<char>)
    requires
        n <= s@.len(),
    ensures
        r@ == s@.take(n as int),
{
    let mut r: Vec<char> = Vec::new();
    let mut k: usize = 0;
    while k < n
        invariant
            k <= n <= s@.len(),
            r@ == s@.take(k as int),
        decreases n - k,
    {
        r.push(s[k]);
        k += 1;
        assert(r@ =~= s@.take(k as int));
    }
    r
}

/// The characters of `s` from index `from` on.
pub fn skip_chars(s: &Vec<char>, from: usize) -> (r: Vec<char>)
    requires
        from <= s@.len(),
    ensures
        r@ == s@.skip(from as int),
{
    let mut r: Vec<char> = Vec::new();
    let mut k: usize = from;
    while k < s.len()
        invariant
            from <= k <= s@.len(),
            r@ == s@.subrange(from as int, k as int),
        decreases s@.len() - k,
    {
        r.push(s[k]);
        k += 1;
        assert(r@ =~= s@.subrange(from as int, k as int));
    }
    r
}

/// Whether `a` sorts strictly before `b` (`String` comparison).
pub fn chars_lt(a: &Vec<char>, b: &Vec<char>) -> (r: bool)
    ensures
        r == seq_lt(a@, b@),
{
    let mut i: usize = 0;
    assert(a@.skip(0) =~= a@);
    assert(b@.skip(0) =~= b@);
    while i < a.len() && i < b.len() && a[i] == b[i]
        invariant
            i <= a@.len(),
            i <= b@.len(),
            seq_lt(a@, b@) == seq_lt(a@.skip(i as int), b@.skip(i as int)),
        decreases a@.len() - i,
    {
        assert(a@.skip(i as int).drop_first() =~= a@.skip(i + 1));
        assert(b@.skip(i as int).drop_first() =~= b@.skip(i + 1));
        i += 1;
    }
    if i == a.len() {
        i < b.len()
    } else if i == b.len() {
        false
    } else {
        (a[i] as u32) < (b[i] as u32)
    }
}

/// The ASCII digit for `d`.
pub fn digit(d: u8) -> (c: char)
    requires
        d < 10,
    ensures
        c == digit_char(d as int),
{
    (48 + d) as char
}

/// Appends the decimal digits of `n`.
pub fn push_decimal(s: &mut String, n: u64)
    ensures
        final(s)@ == old(s)@ + dec_spec(n as nat),
    decreases n,
{
    if n >= 10 {
        push_decimal(s, n / 10);
    }
    let d = (n % 10) as u8;
    push_char(s, digit(d));
    assert(final(s)@ =~= old(s)@ + dec_spec(n as nat));
}

/// Decimal text of an unsigned integer (`u64::to_string`).
pub fn decimal(n: u64) -> (s: String)
    ensures
        s@ == dec_spec(n as nat),
{
    let mut s = String::new();
    push_decimal(&mut s, n);
    assert(s@ =~= dec_spec(n as nat));
    s
}

/// Decimal text of a signed integer (`i64::to_string`).
pub fn decimal_signed(n: i64) -> (s: String)
    ensures
        s@ == dec_signed_spec(n as int),
{
    let mut s = String::new();
    if n < 0 {
        push_char(&mut s, '-');
        let m: u64 = if n == i64::MIN {
            9223372036854775808u64
        } else {
            (-n) as u64
        };
        push_decimal(&mut s, m);
    } else {
        push_decimal(&mut s, n as u64);
    }
    assert(s@ =~= dec_signed_spec(n as int));
    s
}

proof fn lemma_digits_value_monotone(s: Seq<char>, k: int)
    requires
        0 <= k <= s.len(),
        all_digits(s),
    ensures
        digits_value(s.take(k)) <= digits_value(s),
    decreases s.len() - k,
{
    if k < s.len() {
        assert(s.take(k + 1).drop_last() =~= s.take(k));
        lemma_digits_value_monotone(s, k + 1);
        assert(all_digits(s.take(k + 1)));
        assert('0' <= s.take(k + 1).last());
    } else {
        assert(s.take(k) =~= s);
    }
}

/// Decimal text is a non-empty string of digits whose value is the number.
pub proof fn lemma_dec_digits(n: nat)
    ensures
        dec_spec(n).len() > 0,
        all_digits(dec_spec(n)),
        digits_value(dec_spec(n)) == n,
    decreases n,
{
    if n >= 10 {
        lemma_dec_digits(n / 10);
        let d = dec_spec(n);
        assert(d.drop_last() =~= dec_spec(n / 10));
        assert(all_digits(d)) by {
            assert forall|i: int| 0 <= i < d.len() implies '0' <= #[trigger] d[i] && d[i] <= '9' by {
                if i < d.len() - 1 {
                    assert(d[i] == dec_spec(n / 10)[i]);
                }
            }
        }
        assert((digit_char((n % 10) as int) as u32) - 48 == n % 10);
        assert(digits_value(d) == digits_value(d.drop_last()) * 10 + n % 10);
        assert(n == (n / 10) * 10 + n % 10);
    } else {
        assert((digit_char(n as int) as u32) - 48 == n);
        assert(dec_spec(n).drop_last() =~= Seq::<char>::empty());
        assert(digits_value(Seq::<char>::empty()) == 0);
    }
}

/// Decimal text of a positive number does not start with `0`, and numbers
/// below 1000 take at most three digits.
pub proof fn lemma_dec_shape(n: nat)
    ensures
        n >= 1 ==> dec_spec(n)[0] != '0',
        n < 10 ==> dec_spec(n).len() == 1,
        n < 100 ==> dec_spec(n).len() <= 2,
        n < 1000 ==> dec_spec(n).len() <= 3,
    decreases n,
{
    if n >= 10 {
        lemma_dec_shape(n / 10);
        lemma_dec_digits(n / 10);
        assert(dec_spec(n)[0] == dec_spec(n / 10)[0]);
    }
}

/// A natural number reads back from its decimal text, signed or unsigned.
pub proof fn lemma_parse_dec(n: nat, signed: bool, lo: int, hi: int)
    requires
        lo <= n <= hi,
    ensures
        parse_int_spec(dec_spec(n), signed, lo, hi) == Some(n as int),
{
    lemma_dec_digits(n);
    let d = dec_spec(n);
    assert('0' <= d[0] && d[0] <= '9');
}

/// An integer reads back from its decimal text (`parse` of `to_string`).
pub proof fn lemma_parse_dec_signed(n: int, lo: int, hi: int)
    requires
        lo <= n <= hi,
    ensures
        parse_int_spec(dec_signed_spec(n), true, lo, hi) == Some(n),
{
    if n < 0 {
        lemma_dec_digits((-n) as nat);
        assert(dec_signed_spec(n).drop_first() =~= dec_spec((-n) as nat));
    } else {
        lemma_dec_digits(n as nat);
        let d = dec_spec(n as nat);
        assert('0' <= d[0] && d[0] <= '9');
    }
}

/// Parses an integer in `[lo, hi]` the way `FromStr` for integers does.
#[verifier::rlimit(40)]
pub fn parse_int(s: &Vec<char>, signed: bool, lo: i64, hi: i64) -> (r: Option<i64>)
    requires
        lo <= 0 <= hi,
    ensures
        match r {
            Some(v) => parse_int_spec(s@, signed, lo as int, hi as int) == Some(v as int),
            None => parse_int_spec(s@, signed, lo as int, hi as int) is None,
        },
{
    if s.len() == 0 {
        return None;
    }
    let neg = s[0] == '-' && signed;
    let start: usize = if s[0] == '+' || neg {
        1
    } else {
        0
    };
    let ghost digits = s@.skip(start as int);
    assert(digits =~= (if s@[0] == '+' || neg { s@.drop_first() } else { s@ }));
    if start == s.len() {
        return None;
    }
    // magnitude bound: |lo| for negative values, hi otherwise
    let bound: u64 = if neg {
        if lo == i64::MIN {
            9223372036854775808u64
        } else {
            (-lo) as u64
        }
    } else {
        hi as u64
    };
    let mut acc: u64 = 0;
    let mut i: usize = start;
    while i < s.len()
        invariant
            start <= i <= s@.len(),
            s@.len() > 0,
            neg == (s@[0] == '-' && signed),
            digits == s@.skip(start as int),
            digits == (if s@[0] == '+' || neg { s@.drop_first() } else { s@ }),
            bound == (if neg { -lo } else { hi as int }),
            lo <= 0 <= hi,
            acc <= bound,
            bound <= 9223372036854775808u64,
            forall|j: int| 0 <= j < i - start ==> '0' <= #[trigger] digits[j] && digits[j] <= '9',
            acc == digits_value(digits.take(i - start)),
        decreases s@.len() - i,
    {
        let c = s[i];
        if !('0' <= c && c <= '9') {
            assert(!all_digits(digits)) by {
                assert(digits[i - start] == c);
            }
            assert(parse_int_spec(s@, signed, lo as int, hi as int) is None);
            return None;
        }
        let d = (c as u32 - 48) as u64;
        assert(digits.take(i + 1 - start).drop_last() =~= digits.take(i - start));
        if d > bound || acc > (bound - d) / 10 {
            // the value already exceeds the bound and can only grow
            proof {
                assert(digits_value(digits.take(i + 1 - start)) == acc * 10 + d);
                assert(acc * 10 + d > bound) by (nonlinear_arith)
                    requires
                        d > bound || acc > (bound - d) / 10,
                        d <= 9,
                ;
                if all_digits(digits) {
                    lemma_digits_value_monotone(digits, i + 1 - start);
                }
            }
            assert(parse_int_spec(s@, signed, lo as int, hi as int) is None);
            return None;
        }
        assert(acc * 10 + d <= bound) by (nonlinear_arith)
            requires
                acc <= (bound - d) / 10,
                d <= bound,
        ;
        acc = acc * 10 + d;
        i += 1;
    }
    assert(digits.take(i - start) =~= digits);
    assert(all_digits(digits));
    if neg {
        if acc == 9223372036854775808u64 {
            Some(i64::MIN)
        } else {
            Some(-(acc as i64))
        }
    } else {
        Some(acc as i64)
    }
}

} // verus!

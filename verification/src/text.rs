//! Character-level text helpers: UTF-8 widths, trimming, line splitting and
//! byte-range slicing, each stated over sequences of characters.
use vstd::prelude::*;
use vstd::string::*;
use vstd::utf8::*;

verus! {

/// The number of bytes that `s` takes in UTF-8: what `str::len` counts.
pub open spec fn byte_len(s: Seq<char>) -> nat {
    encode_utf8(s).len()
}

/// The Unicode `White_Space` property of a character.
pub open spec fn white_space(c: char) -> bool {
    let n = c as u32;
    ||| 0x9 <= n <= 0xD
    ||| n == 0x20
    ||| n == 0x85
    ||| n == 0xA0
    ||| n == 0x1680
    ||| 0x2000 <= n <= 0x200A
    ||| 0x2028 <= n <= 0x2029
    ||| n == 0x202F
    ||| n == 0x205F
    ||| n == 0x3000
}

/// std's `char::is_whitespace`: whether the character has the `White_Space`
/// property, which the Unicode Character Database gives to these characters.
pub assume_specification[ char::is_whitespace ](c: char) -> (r: bool)
    ensures
        r == white_space(c),
;

/// std's `String::push`: appends one character.
pub assume_specification[ String::push ](s: &mut String, c: char)
    ensures
        final(s)@ == old(s)@.push(c),
;

/// `s` without its trailing white space.
pub open spec fn trim_end(s: Seq<char>) -> Seq<char>
    decreases s.len(),
{
    if s.len() > 0 && white_space(s.last()) {
        trim_end(s.drop_last())
    } else {
        s
    }
}

/// `s` without its leading white space.
pub open spec fn trim_start(s: Seq<char>) -> Seq<char>
    decreases s.len(),
{
    if s.len() > 0 && white_space(s[0]) {
        trim_start(s.drop_first())
    } else {
        s
    }
}

/// `s` without white space at either end.
pub open spec fn trim(s: Seq<char>) -> Seq<char> {
    trim_start(trim_end(s))
}

/// The index of the first `c` in `s`, or the length of `s` if there is none.
pub open spec fn find(s: Seq<char>, c: char) -> nat
    decreases s.len(),
{
    if s.len() == 0 || s[0] == c {
        0
    } else {
        1 + find(s.drop_first(), c)
    }
}

/// A line as it stands before a line feed, without the carriage return of a
/// two-character line ending.
pub open spec fn strip_carriage_return(s: Seq<char>) -> Seq<char> {
    if s.len() > 0 && s.last() == '\r' {
        s.drop_last()
    } else {
        s
    }
}

/// The lines of `s`: a line ends at a line feed, which a carriage return may
/// precede, and the ending of the last line is optional.
pub open spec fn text_lines(s: Seq<char>) -> Seq<Seq<char>>
    decreases s.len(),
{
    if s.len() == 0 {
        Seq::empty()
    } else {
        let k = find(s, '\n') as int;
        if k >= s.len() {
            seq![s]
        } else {
            seq![strip_carriage_return(s.take(k))] + text_lines(s.skip(k + 1))
        }
    }
}

/// The characters that the bytes `a..b` of `source` encode; nothing unless the
/// range is in order, in bounds and on character boundaries at both ends.
pub open spec fn slice(source: Seq<char>, a: int, b: int) -> Option<Seq<char>> {
    let bytes = encode_utf8(source);
    if 0 <= a <= b <= bytes.len() && is_char_boundary(bytes, a) && is_char_boundary(bytes, b) {
        Some(decode_utf8(bytes.subrange(a, b)))
    } else {
        None
    }
}

/// What the ranges `rs` cut out of `cs`.
pub open spec fn cut(cs: Seq<char>, rs: Seq<(usize, usize)>) -> Seq<Seq<char>> {
    rs.map_values(|r: (usize, usize)| cs.subrange(r.0 as int, r.1 as int))
}

/// The digit for a number below ten.
pub open spec fn digit(d: nat) -> char {
    ('0' as int + d) as char
}

/// `n` in decimal notation.
pub open spec fn decimal(n: nat) -> Seq<char>
    decreases n,
{
    if n < 10 {
        seq![digit(n)]
    } else {
        decimal(n / 10).push(digit(n % 10))
    }
}

/// `n` times the character `c`.
pub open spec fn repeat(c: char, n: nat) -> Seq<char> {
    Seq::new(n, |i: int| c)
}

/// `find` is bounded, finds `c`, and finds the first one.
pub proof fn lemma_find(s: Seq<char>, c: char)
    ensures
        find(s, c) <= s.len(),
        find(s, c) < s.len() ==> s[find(s, c) as int] == c,
        forall|i: int| 0 <= i < find(s, c) ==> s[i] != c,
    decreases s.len(),
{
    if s.len() == 0 || s[0] == c {
    } else {
        lemma_find(s.drop_first(), c);
        assert forall|i: int| 0 <= i < find(s, c) implies s[i] != c by {
            if i > 0 {
                assert(s[i] == s.drop_first()[i - 1]);
            }
        }
    }
}

/// A position with no `c` before it, that holds `c` or is the end, is the one found.
pub proof fn lemma_find_is(s: Seq<char>, c: char, k: int)
    requires
        0 <= k <= s.len(),
        k < s.len() ==> s[k] == c,
        forall|i: int| 0 <= i < k ==> s[i] != c,
    ensures
        find(s, c) == k,
{
    lemma_find(s, c);
    let f = find(s, c) as int;
    if f < k {
        assert(s[f] != c);
    }
    if k < f {
        assert(s[k] != c);
    }
}

/// Encoding distributes over concatenation.
pub proof fn lemma_encode_concat(a: Seq<char>, b: Seq<char>)
    ensures
        encode_utf8(a + b) == encode_utf8(a) + encode_utf8(b),
    decreases a.len(),
{
    if a.len() == 0 {
        assert(a + b =~= b);
        assert(encode_utf8(a) + encode_utf8(b) =~= encode_utf8(b));
    } else {
        assert((a + b).drop_first() =~= a.drop_first() + b);
        lemma_encode_concat(a.drop_first(), b);
        assert(encode_utf8(a + b) =~= encode_utf8(a) + encode_utf8(b));
    }
}

/// The byte length of one character.
pub proof fn lemma_byte_len_one(c: char)
    ensures
        byte_len(seq![c]) == encode_scalar(c as u32).len(),
        1 <= byte_len(seq![c]) <= 4,
{
    reveal_with_fuel(encode_utf8, 2);
    assert(seq![c].drop_first() =~= Seq::<char>::empty());
    char_is_scalar(c);
}

/// Byte lengths add up, and no character is without bytes.
pub proof fn lemma_byte_len_concat(a: Seq<char>, b: Seq<char>)
    ensures
        byte_len(a + b) == byte_len(a) + byte_len(b),
{
    lemma_encode_concat(a, b);
}

pub proof fn lemma_byte_len_bounds(s: Seq<char>)
    ensures
        s.len() <= byte_len(s),
        byte_len(s) == 0 <==> s.len() == 0,
    decreases s.len(),
{
    if s.len() > 0 {
        lemma_byte_len_bounds(s.drop_first());
        char_is_scalar(s[0]);
    }
}

/// The number of UTF-8 bytes of a character.
pub fn char_width(c: char) -> (r: usize)
    ensures
        r == byte_len(seq![c]),
        1 <= r <= 4,
{
    proof {
        lemma_byte_len_one(c);
    }
    let v: u32 = c as u32;
    if v <= 0x7F {
        1
    } else if v <= 0x7FF {
        2
    } else if v <= 0xFFFF {
        3
    } else {
        4
    }
}

/// The characters of a string.
pub fn chars_of(s: &str) -> (r: Vec<char>)
    ensures
        r@ == s@,
{
    let mut r: Vec<char> = Vec::new();
    for c in iter: s.chars()
        invariant
            iter.seq() == s@,
            r@ == s@.take(iter.index()),
    {
        r.push(c);
    }
    assert(s@.take(s@.len() as int) == s@);
    r
}

/// The byte length of a string.
pub fn len_of(s: &str) -> (r: usize)
    ensures
        r == byte_len(s@),
{
    s.as_bytes().len()
}

/// Appends the characters `lo..hi` of `cs` to `out`.
pub fn push_range(out: &mut String, cs: &Vec<char>, lo: usize, hi: usize)
    requires
        lo <= hi <= cs@.len(),
    ensures
        final(out)@ == old(out)@ + cs@.subrange(lo as int, hi as int),
{
    let mut i: usize = lo;
    while i < hi
        invariant
            lo <= i <= hi <= cs@.len(),
            out@ == old(out)@ + cs@.subrange(lo as int, i as int),
        decreases hi - i,
    {
        out.push(cs[i]);
        assert(cs@.subrange(lo as int, i + 1) == cs@.subrange(lo as int, i as int).push(cs@[i as int]));
        i = i + 1;
    }
}

/// The characters `lo..hi` of `cs` as a string.
pub fn string_of(cs: &Vec<char>, lo: usize, hi: usize) -> (r: String)
    requires
        lo <= hi <= cs@.len(),
    ensures
        r@ == cs@.subrange(lo as int, hi as int),
{
    let mut r: String = String::new();
    push_range(&mut r, cs, lo, hi);
    r
}

/// Appends `n` in decimal notation to `out`.
pub fn push_decimal(out: &mut String, n: u64)
    ensures
        final(out)@ == old(out)@ + decimal(n as nat),
    decreases n,
{
    if n >= 10 {
        push_decimal(out, n / 10);
    }
    let d: u8 = (n % 10) as u8;
    let zero: u8 = 48;
    let c: char = (zero + d) as char;
    assert(c == digit(n as nat % 10));
    out.push(c);
}

/// `n` times the character `c`, as a string.
pub fn repeated(c: char, n: usize) -> (r: String)
    ensures
        r@ == repeat(c, n as nat),
{
    let mut r: String = String::new();
    let mut i: usize = 0;
    while i < n
        invariant
            i <= n,
            r@ == repeat(c, i as nat),
        decreases n - i,
    {
        r.push(c);
        i = i + 1;
    }
    r
}

/// The number that digits stand for.
pub open spec fn number(digits: Seq<char>) -> int
    decreases digits.len(),
{
    if digits.len() == 0 {
        0
    } else {
        10 * number(digits.drop_last()) + (digits.last() as int - '0' as int)
    }
}

/// Decimal notation stands for the number it was made of.
pub proof fn law_decimal(n: nat)
    ensures
        number(decimal(n)) == n,
        forall|i: int| 0 <= i < decimal(n).len() ==> '0' <= #[trigger] decimal(n)[i] <= '9',
        decimal(n).len() > 0,
        decimal(n).len() > 1 ==> decimal(n)[0] != '0',
        n > 0 ==> decimal(n)[0] != '0',
    decreases n,
{
    reveal_with_fuel(number, 2);
    if n >= 10 {
        law_decimal(n / 10);
        assert(decimal(n).drop_last() =~= decimal(n / 10));
    } else {
        assert(decimal(n).drop_last() =~= Seq::<char>::empty());
    }
}

/// Where `lo..hi` ends once its trailing white space is gone.
pub fn trim_end_at(cs: &Vec<char>, lo: usize, hi: usize) -> (r: usize)
    requires
        lo <= hi <= cs@.len(),
    ensures
        lo <= r <= hi,
        cs@.subrange(lo as int, r as int) == trim_end(cs@.subrange(lo as int, hi as int)),
{
    let mut r: usize = hi;
    while r > lo && cs[r - 1].is_whitespace()
        invariant
            lo <= r <= hi <= cs@.len(),
            trim_end(cs@.subrange(lo as int, r as int)) == trim_end(
                cs@.subrange(lo as int, hi as int),
            ),
        decreases r,
    {
        assert(cs@.subrange(lo as int, r as int).drop_last() == cs@.subrange(lo as int, r - 1));
        r = r - 1;
    }
    assert(r > lo ==> cs@.subrange(lo as int, r as int).last() == cs@[r - 1]);
    r
}

/// The range that is left of `lo..hi` without white space at either end.
pub fn trim_range(cs: &Vec<char>, lo: usize, hi: usize) -> (r: (usize, usize))
    requires
        lo <= hi <= cs@.len(),
    ensures
        lo <= r.0 <= r.1 <= hi,
        cs@.subrange(r.0 as int, r.1 as int) == trim(cs@.subrange(lo as int, hi as int)),
{
    let end: usize = trim_end_at(cs, lo, hi);
    let mut start: usize = lo;
    while start < end && cs[start].is_whitespace()
        invariant
            lo <= start <= end <= hi <= cs@.len(),
            trim_start(cs@.subrange(start as int, end as int)) == trim_start(
                cs@.subrange(lo as int, end as int),
            ),
        decreases end - start,
    {
        assert(cs@.subrange(start as int, end as int).drop_first() == cs@.subrange(
            start + 1,
            end as int,
        ));
        start = start + 1;
    }
    assert(start < end ==> cs@.subrange(start as int, end as int)[0] == cs@[start as int]);
    (start, end)
}

/// The first position of `c` in `lo..hi`, or `hi`.
pub fn find_in(cs: &Vec<char>, lo: usize, hi: usize, c: char) -> (r: usize)
    requires
        lo <= hi <= cs@.len(),
    ensures
        lo <= r <= hi,
        r - lo == find(cs@.subrange(lo as int, hi as int), c),
{
    let mut r: usize = lo;
    while r < hi && cs[r] != c
        invariant
            lo <= r <= hi <= cs@.len(),
            forall|i: int| lo <= i < r ==> cs@[i] != c,
        decreases hi - r,
    {
        r = r + 1;
    }
    proof {
        lemma_find_is(cs@.subrange(lo as int, hi as int), c, r - lo);
    }
    r
}

/// The lines of `lo..hi`, each as a range.
pub fn line_ranges(cs: &Vec<char>, lo: usize, hi: usize) -> (r: Vec<(usize, usize)>)
    requires
        lo <= hi <= cs@.len(),
    ensures
        forall|i: int| 0 <= i < r@.len() ==> lo <= (#[trigger] r@[i]).0 <= r@[i].1 <= hi,
        cut(cs@, r@) == text_lines(cs@.subrange(lo as int, hi as int)),
{
    let mut r: Vec<(usize, usize)> = Vec::new();
    let mut at: usize = lo;
    let ghost whole = cs@.subrange(lo as int, hi as int);
    assert(cut(cs@, r@) + text_lines(whole) =~= text_lines(whole));
    while at < hi
        invariant
            lo <= at <= hi <= cs@.len(),
            whole == cs@.subrange(lo as int, hi as int),
            forall|i: int| 0 <= i < r@.len() ==> lo <= (#[trigger] r@[i]).0 <= r@[i].1 <= hi,
            text_lines(whole) == cut(cs@, r@) + text_lines(cs@.subrange(at as int, hi as int)),
        decreases hi - at,
    {
        let ghost rest = cs@.subrange(at as int, hi as int);
        let ghost before = r@;
        let k: usize = find_in(cs, at, hi, '\n');
        if k == hi {
            r.push((at, hi));
            proof {
                assert(cut(cs@, r@) =~= cut(cs@, before) + seq![rest]);
                assert(cs@.subrange(hi as int, hi as int) =~= Seq::<char>::empty());
                assert(cut(cs@, r@) + text_lines(cs@.subrange(hi as int, hi as int)) =~= cut(cs@, r@));
            }
            at = hi;
        } else {
            let end: usize = if k > at && cs[k - 1] == '\r' {
                k - 1
            } else {
                k
            };
            r.push((at, end));
            proof {
                assert(rest.take(k - at) =~= cs@.subrange(at as int, k as int));
                assert(strip_carriage_return(rest.take(k - at)) =~= cs@.subrange(at as int, end as int));
                assert(rest.skip(k - at + 1) =~= cs@.subrange(k + 1, hi as int));
                assert(cut(cs@, r@) =~= cut(cs@, before) + seq![cs@.subrange(at as int, end as int)]);
                assert(text_lines(whole) =~= cut(cs@, r@) + text_lines(cs@.subrange(k + 1, hi as int)));
            }
            at = k + 1;
        }
    }
    proof {
        assert(cs@.subrange(at as int, hi as int) =~= Seq::<char>::empty());
        assert(cut(cs@, r@) + text_lines(cs@.subrange(at as int, hi as int)) =~= cut(cs@, r@));
    }
    r
}

/// The bytes `a..b` of `source` as a string, where they are one.
pub fn slice_of(source: &str, a: usize, b: usize) -> (r: Option<&str>)
    ensures
        match r {
            Some(t) => slice(source@, a as int, b as int) == Some(t@),
            None => slice(source@, a as int, b as int) is None,
        },
{
    broadcast use {encode_utf8_valid_utf8, encode_utf8_decode_utf8, valid_utf8_split};
    let ghost bytes = encode_utf8(source@);
    let len: usize = len_of(source);
    if a > b || b > len || !source.is_char_boundary(a) || !source.is_char_boundary(b) {
        return None;
    }
    let (head, _) = source.split_at(b);
    proof {
        lemma_boundary_of_prefix(bytes, a as int, b as int);
    }
    let (_, text) = head.split_at(a);
    proof {
        assert(bytes.subrange(0, b as int).subrange(a as int, b as int) =~= bytes.subrange(
            a as int,
            b as int,
        ));
        assert(decode_utf8(encode_utf8(text@)) == text@);
    }
    Some(text)
}

/// A boundary at or before another one is a boundary of the text that ends there.
proof fn lemma_boundary_of_prefix(bytes: Seq<u8>, a: int, b: int)
    requires
        valid_utf8(bytes),
        0 <= a <= b <= bytes.len(),
        is_char_boundary(bytes, a),
        is_char_boundary(bytes, b),
    ensures
        is_char_boundary(bytes.subrange(0, b), a),
{
    let head = bytes.subrange(0, b);
    valid_utf8_split(bytes, b);
    if a == b {
        is_char_boundary_start_end_of_seq(head);
    } else {
        is_char_boundary_iff_not_is_continuation_byte(bytes, a);
        is_char_boundary_iff_not_is_continuation_byte(head, a);
    }
}

/// What is cut out of a text by bytes is a part of it, with the bytes before it
/// and its own bytes counted by the range.
pub proof fn law_slice_is_part(source: Seq<char>, a: int, b: int)
    ensures
        slice(source, a, b) matches Some(s) ==> exists|x: Seq<char>, y: Seq<char>|
            source == #[trigger] (x + s + y) && byte_len(x) == a && byte_len(s) == b - a,
{
    if let Some(s) = slice(source, a, b) {
        let bytes = encode_utf8(source);
        encode_utf8_valid_utf8(source);
        encode_utf8_decode_utf8(source);
        let head = bytes.subrange(0, b);
        valid_utf8_split(bytes, b);
        decode_utf8_split(bytes, b);
        lemma_boundary_of_prefix(bytes, a, b);
        valid_utf8_split(head, a);
        decode_utf8_split(head, a);
        assert(head.subrange(0, a) =~= bytes.subrange(0, a));
        assert(head.subrange(a, b) =~= bytes.subrange(a, b));
        let x = decode_utf8(bytes.subrange(0, a));
        let y = decode_utf8(bytes.subrange(b, bytes.len() as int));
        decode_utf8_encode_utf8(bytes.subrange(0, a));
        decode_utf8_encode_utf8(bytes.subrange(a, b));
        assert(source == x + s + y);
    }
}

/// A part of a text is cut out of it by the bytes before it and its own.
pub proof fn law_part_is_slice(x: Seq<char>, s: Seq<char>, y: Seq<char>)
    ensures
        slice(x + s + y, byte_len(x) as int, (byte_len(x) + byte_len(s)) as int) == Some(s),
{
    let bytes = encode_utf8(x + s + y);
    lemma_encode_concat(x + s, y);
    lemma_encode_concat(x, s);
    lemma_encode_concat(s, y);
    lemma_boundary_between(x, s + y);
    lemma_boundary_between(x + s, y);
    assert(x + s + y =~= x + (s + y));
    let a = byte_len(x) as int;
    let b = (byte_len(x) + byte_len(s)) as int;
    assert(bytes.subrange(a, b) =~= encode_utf8(s));
    encode_utf8_decode_utf8(s);
}

/// A character boundary is where one text ends and the next begins.
proof fn lemma_boundary_between(a: Seq<char>, b: Seq<char>)
    ensures
        is_char_boundary(encode_utf8(a + b), byte_len(a) as int),
{
    let bytes = encode_utf8(a + b);
    let k = byte_len(a) as int;
    lemma_encode_concat(a, b);
    encode_utf8_valid_utf8(a + b);
    encode_utf8_valid_utf8(b);
    is_char_boundary_start_end_of_seq(bytes);
    is_char_boundary_start_end_of_seq(encode_utf8(b));
    if k < bytes.len() {
        assert(bytes[k] == encode_utf8(b)[0]);
        is_char_boundary_iff_not_is_continuation_byte(encode_utf8(b), 0);
        is_char_boundary_iff_not_is_continuation_byte(bytes, k);
    }
}

} // verus!

//! Plain text: splitting, trimming, and numbers.

use vstd::prelude::*;

verus! {

/// `<str as PartialEq>::eq`: two strings are equal if they hold the same characters.
pub assume_specification[ <str as PartialEq>::eq ](left: &str, right: &str) -> (equal: bool)
    ensures
        equal == (left@ == right@),
;

/// `String::push`: appends a character.
pub assume_specification[ String::push ](string: &mut String, ch: char)
    ensures
        final(string)@ == old(string)@.push(ch),
;

// ---------------------------------------------------------------------------
// Characters and strings
// ---------------------------------------------------------------------------

/// The characters of a string.
pub fn chars_of(s: &str) -> (r: Vec<char>)
    ensures
        r@ == s@,
{
    let mut v: Vec<char> = Vec::new();
    for c in it: s.chars()
        invariant
            v@ == it.seq().take(it.index()),
            it.seq() == s@,
    {
        v.push(c);
        assert(v@ =~= it.seq().take(it.index() + 1));
    }
    assert(v@ =~= s@);
    v
}

/// The string of some characters.
pub fn string_of(v: &Vec<char>) -> (r: String)
    ensures
        r@ == v@,
{
    let mut s = String::new();
    let mut i: usize = 0;
    while i < v.len()
        invariant
            i <= v@.len(),
            s@ == v@.take(i as int),
        decreases v@.len() - i,
    {
        s.push(v[i]);
        i += 1;
        assert(s@ =~= v@.take(i as int));
    }
    assert(v@.take(i as int) =~= v@);
    s
}

/// The text of an optional string.
pub open spec fn text_of(x: Option<String>) -> Option<Seq<char>> {
    match x {
        Some(s) => Some(s@),
        None => None,
    }
}

/// A text, or nothing if it is empty.
pub open spec fn unless_empty(s: Seq<char>) -> Option<Seq<char>> {
    if s.len() == 0 {
        None
    } else {
        Some(s)
    }
}

/// A copy of a string, or nothing if it is empty.
pub fn copy_unless_empty(s: &str) -> (r: Option<String>)
    ensures
        text_of(r) == unless_empty(s@),
{
    if s.unicode_len() == 0 {
        None
    } else {
        Some(copy_str(s))
    }
}

/// A copy of a string.
pub fn copy_str(s: &str) -> (r: String)
    ensures
        r@ == s@,
{
    s.to_owned()
}

/// Appends a string.
pub fn append_str(s: &mut String, t: &str)
    ensures
        final(s)@ == old(s)@ + t@,
{
    let v = chars_of(t);
    let mut i: usize = 0;
    while i < v.len()
        invariant
            i <= v@.len(),
            v@ == t@,
            s@ == old(s)@ + v@.take(i as int),
        decreases v@.len() - i,
    {
        s.push(v[i]);
        i += 1;
        assert(s@ =~= old(s)@ + v@.take(i as int));
    }
    assert(v@.take(i as int) =~= t@);
}

/// Two strings, one after the other.
pub fn join(a: &str, b: &str) -> (r: String)
    ensures
        r@ == a@ + b@,
{
    let mut s = copy_str(a);
    append_str(&mut s, b);
    s
}

/// Part of some characters.
pub fn sub_chars(v: &Vec<char>, from: usize, to: usize) -> (r: Vec<char>)
    requires
        from <= to <= v@.len(),
    ensures
        r@ == v@.subrange(from as int, to as int),
{
    let mut out: Vec<char> = Vec::new();
    let mut i: usize = from;
    while i < to
        invariant
            from <= i <= to <= v@.len(),
            out@ == v@.subrange(from as int, i as int),
        decreases to - i,
    {
        out.push(v[i]);
        i += 1;
        assert(out@ =~= v@.subrange(from as int, i as int));
    }
    out
}

// ---------------------------------------------------------------------------
// Trimming and splitting
// ---------------------------------------------------------------------------

/// White space, as Unicode has it.
pub open spec fn is_space(c: char) -> bool {
    ||| 0x09 <= c as u32 <= 0x0d
    ||| c as u32 == 0x20
    ||| c as u32 == 0x85
    ||| c as u32 == 0xa0
    ||| c as u32 == 0x1680
    ||| 0x2000 <= c as u32 <= 0x200a
    ||| c as u32 == 0x2028
    ||| c as u32 == 0x2029
    ||| c as u32 == 0x202f
    ||| c as u32 == 0x205f
    ||| c as u32 == 0x3000
}

fn check_space(c: char) -> (r: bool)
    ensures
        r == is_space(c),
{
    let x: u32 = c as u32;
    (0x09 <= x && x <= 0x0d) || x == 0x20 || x == 0x85 || x == 0xa0 || x == 0x1680 || (0x2000 <= x
        && x <= 0x200a) || x == 0x2028 || x == 0x2029 || x == 0x202f || x == 0x205f || x == 0x3000
}

pub open spec fn trim_end(s: Seq<char>) -> Seq<char>
    decreases s.len(),
{
    if s.len() > 0 && is_space(s.last()) {
        trim_end(s.drop_last())
    } else {
        s
    }
}

pub open spec fn trim_start(s: Seq<char>) -> Seq<char>
    decreases s.len(),
{
    if s.len() > 0 && is_space(s[0]) {
        trim_start(s.skip(1))
    } else {
        s
    }
}

/// Without white space at either end.
pub open spec fn trimmed(s: Seq<char>) -> Seq<char> {
    trim_start(trim_end(s))
}

/// The characters without white space at either end.
pub fn trim(v: &Vec<char>) -> (r: Vec<char>)
    ensures
        r@ == trimmed(v@),
{
    let mut hi: usize = v.len();
    assert(v@.take(hi as int) =~= v@);
    while hi > 0 && check_space(v[hi - 1])
        invariant
            hi <= v@.len(),
            trim_end(v@) == trim_end(v@.take(hi as int)),
        decreases hi,
    {
        assert(v@.take(hi as int).drop_last() =~= v@.take(hi as int - 1));
        hi -= 1;
    }
    let ghost t = v@.take(hi as int);
    assert(trim_end(v@) == t);
    let mut lo: usize = 0;
    assert(t.skip(0) =~= t);
    while lo < hi && check_space(v[lo])
        invariant
            lo <= hi <= v@.len(),
            t == v@.take(hi as int),
            trim_start(t) == trim_start(t.skip(lo as int)),
        decreases hi - lo,
    {
        assert(t.skip(lo as int)[0] == v@[lo as int]);
        assert(t.skip(lo as int).skip(1) =~= t.skip(lo as int + 1));
        lo += 1;
    }
    assert(lo < hi ==> t.skip(lo as int)[0] == v@[lo as int]);
    assert(t.skip(lo as int) =~= v@.subrange(lo as int, hi as int));
    sub_chars(v, lo, hi)
}

/// The string without white space at either end.
pub fn trim_str(s: &str) -> (r: String)
    ensures
        r@ == trimmed(s@),
{
    string_of(&trim(&chars_of(s)))
}

/// The pieces between separators.
pub open spec fn split_at(s: Seq<char>, sep: char) -> Seq<Seq<char>>
    decreases s.len(),
{
    if s.len() == 0 {
        seq![Seq::empty()]
    } else {
        let front = split_at(s.drop_last(), sep);
        if s.last() == sep {
            front.push(Seq::empty())
        } else {
            front.drop_last().push(front.last().push(s.last()))
        }
    }
}

pub proof fn lemma_split_len(s: Seq<char>, sep: char)
    ensures
        split_at(s, sep).len() > 0,
    decreases s.len(),
{
    if s.len() > 0 {
        lemma_split_len(s.drop_last(), sep);
    }
}

/// The pieces as mathematical values.
pub open spec fn pieces_view(v: Seq<Vec<char>>) -> Seq<Seq<char>> {
    Seq::new(v.len(), |i: int| v[i]@)
}

/// The pieces between separators.
pub fn split(v: &Vec<char>, sep: char) -> (r: Vec<Vec<char>>)
    ensures
        pieces_view(r@) == split_at(v@, sep),
        r@.len() > 0,
{
    let mut out: Vec<Vec<char>> = Vec::new();
    let mut cur: Vec<char> = Vec::new();
    let mut i: usize = 0;
    assert(pieces_view(out@).push(cur@) =~= split_at(v@.take(0), sep));
    while i < v.len()
        invariant
            i <= v@.len(),
            pieces_view(out@).push(cur@) == split_at(v@.take(i as int), sep),
        decreases v@.len() - i,
    {
        let c: char = v[i];
        let ghost before = pieces_view(out@);
        let ghost piece = cur@;
        proof {
            assert(v@.take(i as int + 1).drop_last() =~= v@.take(i as int));
            assert(v@.take(i as int + 1).last() == c);
            assert(before.push(piece).drop_last() =~= before);
            assert(before.push(piece).last() == piece);
        }
        if c == sep {
            out.push(cur);
            cur = Vec::new();
            proof {
                assert(pieces_view(out@) =~= before.push(piece));
                assert(cur@ =~= Seq::<char>::empty());
            }
        } else {
            cur.push(c);
        }
        i += 1;
    }
    let ghost before = pieces_view(out@);
    let ghost piece = cur@;
    out.push(cur);
    proof {
        assert(pieces_view(out@) =~= before.push(piece));
        assert(v@.take(i as int) =~= v@);
    }
    out
}

/// The string begins with the given characters.
pub open spec fn begins_with(s: Seq<char>, prefix: Seq<char>) -> bool {
    s.len() >= prefix.len() && s.take(prefix.len() as int) == prefix
}

pub fn starts_with(v: &Vec<char>, prefix: &Vec<char>) -> (r: bool)
    ensures
        r == begins_with(v@, prefix@),
{
    if v.len() < prefix.len() {
        return false;
    }
    let mut i: usize = 0;
    while i < prefix.len()
        invariant
            i <= prefix@.len() <= v@.len(),
            v@.take(i as int) == prefix@.take(i as int),
        decreases prefix@.len() - i,
    {
        if v[i] != prefix[i] {
            assert(v@.take(prefix@.len() as int)[i as int] != prefix@[i as int]);
            return false;
        }
        assert(v@.take(i as int + 1) =~= v@.take(i as int).push(v@[i as int]));
        assert(prefix@.take(i as int + 1) =~= prefix@.take(i as int).push(prefix@[i as int]));
        i += 1;
    }
    assert(prefix@.take(i as int) =~= prefix@);
    true
}

// ---------------------------------------------------------------------------
// Reading numbers
// ---------------------------------------------------------------------------

/// Value of a digit in a base of at most 16.
pub open spec fn digit_value(c: char, base: int) -> Option<int> {
    let x = c as u32;
    let d = if 0x30 <= x <= 0x39 {
        x - 0x30
    } else if 0x61 <= x <= 0x66 {
        x - 0x57
    } else if 0x41 <= x <= 0x46 {
        x - 0x37
    } else {
        99
    };
    if d < base {
        Some(d)
    } else {
        None
    }
}

fn digit_of(c: char, base: u32) -> (r: Option<u32>)
    requires
        base <= 16,
    ensures
        match r {
            Some(d) => digit_value(c, base as int) == Some(d as int) && d < base,
            None => digit_value(c, base as int) is None,
        },
{
    let x: u32 = c as u32;
    let d: u32 = if 0x30 <= x && x <= 0x39 {
        x - 0x30
    } else if 0x61 <= x && x <= 0x66 {
        x - 0x57
    } else if 0x41 <= x && x <= 0x46 {
        x - 0x37
    } else {
        99
    };
    if d < base {
        Some(d)
    } else {
        None
    }
}

/// Value of a row of digits, zero if there are none. None if some character is not a digit.
pub open spec fn digits_value(s: Seq<char>, base: int) -> Option<int>
    decreases s.len(),
{
    if s.len() == 0 {
        Some(0)
    } else {
        match (digits_value(s.drop_last(), base), digit_value(s.last(), base)) {
            (Some(v), Some(d)) => Some(v * base + d),
            _ => None,
        }
    }
}

/// The number that a text stands for: a row of digits that may follow a plus sign. None if the
/// text is anything else or the number is over `max`.
pub open spec fn number_in(s: Seq<char>, base: int, max: int) -> Option<int> {
    let body = if s.len() > 0 && s[0] == '+' {
        s.skip(1)
    } else {
        s
    };
    match digits_value(body, base) {
        Some(v) if body.len() > 0 && v <= max => Some(v),
        _ => None,
    }
}

proof fn lemma_digits(s: Seq<char>, base: int, n: int)
    requires
        base >= 2,
        0 <= n <= s.len(),
    ensures
        digits_value(s, base) is Some ==> digits_value(s.take(n), base) is Some
            && digits_value(s.take(n), base)->0 <= digits_value(s, base)->0,
        digits_value(s, base) is Some ==> digits_value(s, base)->0 >= 0,
    decreases s.len(),
{
    if s.len() > 0 {
        lemma_digits(s.drop_last(), base, if n < s.len() {
            n
        } else {
            n - 1
        });
        if n < s.len() {
            assert(s.drop_last().take(n) =~= s.take(n));
        } else {
            assert(s.take(n) =~= s);
        }
        if digits_value(s, base) is Some {
            let v = digits_value(s.drop_last(), base)->0;
            assert(v * base >= v) by (nonlinear_arith)
                requires
                    v >= 0,
                    base >= 2,
            ;
        }
    } else {
        assert(s.take(n) =~= s);
    }
}

/// A number that can be read is no more than the greatest allowed.
pub proof fn lemma_decimal_within(s: Seq<char>, max: int)
    ensures
        match decimal(s, max) {
            Some(v) => 0 <= v <= max,
            None => true,
        },
{
    if s.len() > 0 && s[0] == '+' {
        lemma_digits(s.skip(1), 10, 0);
    } else {
        lemma_digits(s, 10, 0);
    }
}

/// Reads the digits from `from` on, up to `max`.
fn read_digits(v: &Vec<char>, from: usize, base: u32, max: u64) -> (r: Option<u64>)
    requires
        from <= v@.len(),
        2 <= base <= 16,
    ensures
        match r {
            Some(x) => digits_value(v@.skip(from as int), base as int) == Some(x as int) && x
                <= max,
            None => match digits_value(v@.skip(from as int), base as int) {
                Some(x) => x > max,
                None => true,
            },
        },
{
    let ghost body = v@.skip(from as int);
    let mut value: u64 = 0;
    let mut i: usize = from;
    while i < v.len()
        invariant
            from <= i <= v@.len(),
            body == v@.skip(from as int),
            2 <= base <= 16,
            value <= max,
            digits_value(body.take(i - from), base as int) == Some(value as int),
        decreases v@.len() - i,
    {
        let ghost k = i - from;
        proof {
            assert(body.take(k + 1).drop_last() =~= body.take(k));
            assert(body.take(k + 1).last() == v@[i as int]);
            lemma_digits(body, base as int, k + 1);
            assert(value * base <= 0xffff_ffff_ffff_ffff * 16) by (nonlinear_arith)
                requires
                    value <= 0xffff_ffff_ffff_ffff,
                    base <= 16,
            ;
        }
        match digit_of(v[i], base) {
            None => {
                return None;
            },
            Some(d) => {
                let next: u128 = value as u128 * base as u128 + d as u128;
                if next > max as u128 {
                    return None;
                }
                value = next as u64;
            },
        }
        i += 1;
    }
    assert(body.take(i - from) =~= body);
    Some(value)
}

/// Reads a number of at most `max`.
pub fn read_number(v: &Vec<char>, base: u32, max: u32) -> (r: Option<u32>)
    requires
        2 <= base <= 16,
    ensures
        match r {
            Some(x) => number_in(v@, base as int, max as int) == Some(x as int),
            None => number_in(v@, base as int, max as int) is None,
        },
{
    let from: usize = if v.len() > 0 && v[0] == '+' {
        1
    } else {
        0
    };
    assert(v@.skip(0) =~= v@);
    if from >= v.len() {
        return None;
    }
    match read_digits(v, from, base, max as u64) {
        Some(x) => Some(x as u32),
        None => None,
    }
}

/// The number of at most `max` that a text stands for.
pub open spec fn decimal(s: Seq<char>, max: int) -> Option<int> {
    number_in(s, 10, max)
}

pub fn read_u32(v: &Vec<char>) -> (r: Option<u32>)
    ensures
        match r {
            Some(x) => decimal(v@, u32::MAX as int) == Some(x as int),
            None => decimal(v@, u32::MAX as int) is None,
        },
{
    read_number(v, 10, u32::MAX)
}

/// The signed number that a text stands for, within 32 bits.
pub open spec fn signed_decimal(s: Seq<char>) -> Option<int> {
    if s.len() > 0 && s[0] == '-' {
        match digits_value(s.skip(1), 10) {
            Some(v) if s.len() > 1 && v <= 0x8000_0000 => Some(-v),
            _ => None,
        }
    } else {
        number_in(s, 10, i32::MAX as int)
    }
}

pub fn read_i32(v: &Vec<char>) -> (r: Option<i32>)
    ensures
        match r {
            Some(x) => signed_decimal(v@) == Some(x as int),
            None => signed_decimal(v@) is None,
        },
{
    if v.len() > 0 && v[0] == '-' {
        if v.len() == 1 {
            return None;
        }
        match read_digits(v, 1, 10, 0x8000_0000) {
            Some(x) => Some((-(x as i64)) as i32),
            None => None,
        }
    } else {
        match read_number(v, 10, 0x7fff_ffff) {
            Some(x) => Some(x as i32),
            None => None,
        }
    }
}

/// The signed number that a text stands for, within 64 bits.
pub open spec fn long_decimal(s: Seq<char>) -> Option<int> {
    if s.len() > 0 && s[0] == '-' {
        match digits_value(s.skip(1), 10) {
            Some(v) if s.len() > 1 && v <= 0x8000_0000_0000_0000 => Some(-v),
            _ => None,
        }
    } else {
        number_in(s, 10, i64::MAX as int)
    }
}

pub fn read_i64(v: &Vec<char>) -> (r: Option<i64>)
    ensures
        match r {
            Some(x) => long_decimal(v@) == Some(x as int),
            None => long_decimal(v@) is None,
        },
{
    if v.len() == 0 {
        return None;
    }
    if v[0] == '-' {
        if v.len() == 1 {
            return None;
        }
        match read_digits(v, 1, 10, 0x8000_0000_0000_0000) {
            Some(x) => Some((-(x as i128)) as i64),
            None => None,
        }
    } else {
        let from: usize = if v[0] == '+' {
            1
        } else {
            0
        };
        assert(v@.skip(0) =~= v@);
        if from >= v.len() {
            return None;
        }
        match read_digits(v, from, 10, 0x7fff_ffff_ffff_ffff) {
            Some(x) => Some(x as i64),
            None => None,
        }
    }
}

// ---------------------------------------------------------------------------
// Bytes
// ---------------------------------------------------------------------------

/// `std::str::from_utf8`: the text that some bytes encode in UTF-8; None if they encode none.
#[verifier::external_body]
pub(crate) fn utf8_text(bytes: &[u8]) -> (text: Option<String>)
    ensures
        text is Some <==> vstd::utf8::valid_utf8(bytes@),
        text matches Some(s) ==> s@ == vstd::utf8::decode_utf8(bytes@),
{
    match std::str::from_utf8(bytes) {
        Ok(s) => Some(s.to_string()),
        Err(_) => None,
    }
}

/// The text that some bytes encode.
pub open spec fn text_in(bytes: Seq<u8>) -> Option<Seq<char>> {
    if vstd::utf8::valid_utf8(bytes) {
        Some(vstd::utf8::decode_utf8(bytes))
    } else {
        None
    }
}

// ---------------------------------------------------------------------------
// Writing numbers
// ---------------------------------------------------------------------------

/// The digit for a value below 16.
pub open spec fn digit_char(d: int) -> char {
    if d < 10 {
        (0x30 + d) as char
    } else {
        (0x57 + d) as char
    }
}

fn char_of_digit(d: u8) -> (r: char)
    requires
        d < 16,
    ensures
        r == digit_char(d as int),
{
    if d < 10 {
        (0x30 + d) as char
    } else {
        (0x57 + d) as char
    }
}

/// The digits of a number; none for zero.
pub open spec fn significant_digits(n: int, base: int) -> Seq<char>
    decreases n,
{
    if n <= 0 || base < 2 {
        Seq::empty()
    } else {
        proof {
            assert(n / base < n) by (nonlinear_arith)
                requires
                    n > 0,
                    base >= 2,
            ;
        }
        significant_digits(n / base, base).push(digit_char(n % base))
    }
}

pub open spec fn zeros(n: int) -> Seq<char> {
    Seq::new(
        if n < 0 {
            0
        } else {
            n as nat
        },
        |i: int| '0',
    )
}

/// The digits of a number, filled up with zeros in front to at least `width` digits.
pub open spec fn padded(n: int, base: int, width: int) -> Seq<char> {
    let digits = significant_digits(n, base);
    zeros(width - digits.len()) + digits
}

/// The digits of a number, filled up with zeros in front to at least `width` digits.
pub fn digits(n: u128, base: u128, width: usize) -> (r: Vec<char>)
    requires
        2 <= base <= 16,
    ensures
        r@ == padded(n as int, base as int, width as int),
{
    let mut back: Vec<char> = Vec::new();
    let mut x: u128 = n;
    assert(back@.reverse() =~= Seq::<char>::empty());
    while x > 0
        invariant
            2 <= base <= 16,
            significant_digits(n as int, base as int) == significant_digits(x as int, base as int)
                + back@.reverse(),
        decreases x,
    {
        let ghost before = back@;
        let d: u128 = x % base;
        back.push(char_of_digit(d as u8));
        proof {
            assert(x / base < x) by (nonlinear_arith)
                requires
                    x > 0,
                    base >= 2,
            ;
            assert(back@.reverse() =~= seq![digit_char(d as int)] + before.reverse());
            let q = significant_digits((x / base) as int, base as int);
            assert(significant_digits(x as int, base as int) == q.push(digit_char(d as int)));
            assert(q.push(digit_char(d as int)) + before.reverse() =~= q + back@.reverse());
        }
        x = x / base;
    }
    let ghost sig = significant_digits(n as int, base as int);
    assert(sig =~= back@.reverse());
    let mut out: Vec<char> = Vec::new();
    let mut k: usize = back.len();
    while k < width
        invariant
            back@.len() <= k,
            k <= width || k == back@.len(),
            out@ == zeros(k - back@.len()),
        decreases width - k,
    {
        out.push('0');
        k += 1;
        assert(out@ =~= zeros(k - back@.len()));
    }
    assert(out@ =~= zeros(width - back@.len()));
    let ghost lead = out@;
    let mut i: usize = back.len();
    while i > 0
        invariant
            i <= back@.len(),
            out@ == lead + back@.reverse().take(back@.len() - i),
        decreases i,
    {
        i -= 1;
        out.push(back[i]);
        assert(back@.reverse().take(back@.len() - i) =~= back@.reverse().take(
            back@.len() - i - 1,
        ).push(back@[i as int]));
        assert(out@ =~= lead + back@.reverse().take(back@.len() - i));
    }
    assert(back@.reverse().take(back@.len() - 0) =~= back@.reverse());
    out
}

/// A number in decimal digits, at least `width` of them.
pub fn decimal_string(n: u32, width: usize) -> (r: String)
    ensures
        r@ == padded(n as int, 10, width as int),
{
    string_of(&digits(n as u128, 10, width))
}

/// A number in hexadecimal digits, at least `width` of them.
pub fn hex_string(n: u32, width: usize) -> (r: String)
    ensures
        r@ == padded(n as int, 16, width as int),
{
    string_of(&digits(n as u128, 16, width))
}

proof fn lemma_digits_append(s: Seq<char>, c: char, base: int)
    ensures
        digits_value(s.push(c), base) == match (digits_value(s, base), digit_value(c, base)) {
            (Some(v), Some(d)) => Some(v * base + d),
            _ => None::<int>,
        },
{
    assert(s.push(c).drop_last() =~= s);
}

proof fn lemma_zeros(n: nat, base: int)
    requires
        2 <= base <= 16,
    ensures
        digits_value(zeros(n as int), base) == Some(0int),
    decreases n,
{
    if n > 0 {
        lemma_zeros((n - 1) as nat, base);
        assert(zeros(n as int).drop_last() =~= zeros(n - 1));
        assert(zeros(n as int).last() == '0');
        assert(0 * base == 0) by (nonlinear_arith);
    }
}

proof fn lemma_read_back(lead: nat, n: int, base: int)
    requires
        2 <= base <= 16,
        n >= 0,
    ensures
        digits_value(zeros(lead as int) + significant_digits(n, base), base) == Some(n),
    decreases n,
{
    let z = zeros(lead as int);
    if n == 0 {
        lemma_zeros(lead, base);
        assert(z + significant_digits(n, base) =~= z);
    } else {
        assert(0 <= n / base < n && (n / base) * base + n % base == n && 0 <= n % base < base)
            by (nonlinear_arith)
            requires
                n > 0,
                base >= 2,
        ;
        lemma_read_back(lead, n / base, base);
        let q = significant_digits(n / base, base);
        assert(z + q.push(digit_char(n % base)) =~= (z + q).push(digit_char(n % base)));
        lemma_digits_append(z + q, digit_char(n % base), base);
        assert(digit_value(digit_char(n % base), base) == Some(n % base));
    }
}

proof fn lemma_first_digit(n: int, base: int)
    requires
        2 <= base <= 16,
        n > 0,
    ensures
        significant_digits(n, base).len() > 0,
        significant_digits(n, base)[0] != '+',
    decreases n,
{
    assert(0 <= n / base < n && 0 <= n % base < base) by (nonlinear_arith)
        requires
            n > 0,
            base >= 2,
    ;
    let q = significant_digits(n / base, base);
    assert(significant_digits(n, base) == q.push(digit_char(n % base)));
    if n / base > 0 {
        lemma_first_digit(n / base, base);
        assert(q.push(digit_char(n % base))[0] == q[0]);
    } else {
        assert(q =~= Seq::empty());
        assert(q.push(digit_char(n % base))[0] == digit_char(n % base));
    }
}

/// Reading what was written gives the number back.
pub proof fn written_number_reads_back(n: int, base: int, width: int, max: int)
    requires
        2 <= base <= 16,
        0 <= n <= max,
        n > 0 || width > 0,
    ensures
        number_in(padded(n, base, width), base, max) == Some(n),
{
    let sig = significant_digits(n, base);
    let lead = width - sig.len();
    let p = padded(n, base, width);
    let k: nat = if lead < 0 {
        0
    } else {
        lead as nat
    };
    assert(p =~= zeros(k as int) + sig);
    lemma_read_back(k, n, base);
    if n > 0 {
        lemma_first_digit(n, base);
    }
    if k > 0 {
        assert(p[0] == '0');
    } else {
        assert(p[0] == sig[0]);
    }
}

// ---------------------------------------------------------------------------
// What is written of numbers and separators
// ---------------------------------------------------------------------------

/// Every character of a row of digits is a digit.
pub proof fn lemma_all_digits(s: Seq<char>, base: int, i: int)
    requires
        digits_value(s, base) is Some,
        0 <= i < s.len(),
    ensures
        digit_value(s[i], base) is Some,
    decreases s.len(),
{
    if i < s.len() - 1 {
        lemma_all_digits(s.drop_last(), base, i);
    }
}

/// Every character of a number in writing is a digit, but for a plus sign in front.
pub proof fn lemma_number_chars(s: Seq<char>, base: int, max: int, i: int)
    requires
        number_in(s, base, max) is Some,
        0 <= i < s.len(),
    ensures
        digit_value(s[i], base) is Some || s[i] == '+',
{
    if s[0] == '+' {
        if i > 0 {
            lemma_all_digits(s.skip(1), base, i - 1);
            assert(s.skip(1)[i - 1] == s[i]);
        }
    } else {
        lemma_all_digits(s, base, i);
    }
}

/// Every character of a written number is a digit.
pub proof fn lemma_padded_digits(n: int, base: int, width: int, i: int)
    requires
        2 <= base <= 16,
        n >= 0,
        0 <= i < padded(n, base, width).len(),
    ensures
        digit_value(padded(n, base, width)[i], base) is Some,
{
    let lead = width - significant_digits(n, base).len();
    let k: nat = if lead < 0 {
        0
    } else {
        lead as nat
    };
    assert(padded(n, base, width) =~= zeros(k as int) + significant_digits(n, base));
    lemma_read_back(k, n, base);
    lemma_all_digits(padded(n, base, width), base, i);
}

/// Without the separator there is one piece.
pub proof fn lemma_split_whole(s: Seq<char>, sep: char)
    requires
        forall|i: int| 0 <= i < s.len() ==> s[i] != sep,
    ensures
        split_at(s, sep) == seq![s],
    decreases s.len(),
{
    if s.len() > 0 {
        let front = s.drop_last();
        assert forall|i: int| 0 <= i < front.len() implies front[i] != sep by {
            assert(front[i] == s[i]);
        }
        lemma_split_whole(front, sep);
        assert(front.push(s.last()) =~= s);
        assert(split_at(s, sep) =~= seq![s]);
    } else {
        assert(s =~= Seq::empty());
    }
}

/// A piece behind a separator is a piece of its own.
pub proof fn lemma_split_join(a: Seq<char>, sep: char, b: Seq<char>)
    requires
        forall|i: int| 0 <= i < b.len() ==> b[i] != sep,
    ensures
        split_at(a + seq![sep] + b, sep) == split_at(a, sep).push(b),
    decreases b.len(),
{
    let s = a + seq![sep] + b;
    if b.len() > 0 {
        let front = b.drop_last();
        assert forall|i: int| 0 <= i < front.len() implies front[i] != sep by {
            assert(front[i] == b[i]);
        }
        lemma_split_join(a, sep, front);
        assert(s.drop_last() =~= a + seq![sep] + front);
        let before = split_at(a, sep);
        assert(before.push(front).drop_last() =~= before);
        assert(front.push(b.last()) =~= b);
    } else {
        assert(s.drop_last() =~= a);
        assert(b =~= Seq::empty());
    }
}

/// Every character is the separator or stands in a piece.
pub proof fn lemma_split_chars(s: Seq<char>, sep: char, i: int)
    requires
        0 <= i < s.len(),
        s[i] != sep,
    ensures
        exists|k: int|
            0 <= k < split_at(s, sep).len() && (#[trigger] split_at(s, sep)[k]).contains(s[i]),
    decreases s.len(),
{
    let front = s.drop_last();
    let pieces = split_at(s, sep);
    let before = split_at(front, sep);
    lemma_split_len(front, sep);
    if i == s.len() - 1 {
        let last = pieces[pieces.len() - 1];
        assert(last == before.last().push(s.last()));
        assert(last[last.len() - 1] == s[i]);
        assert(last.contains(s[i]));
    } else {
        lemma_split_chars(front, sep, i);
        assert(front[i] == s[i]);
        let k = choose|k: int| 0 <= k < before.len() && (#[trigger] before[k]).contains(front[i]);
        let j = choose|j: int| 0 <= j < before[k].len() && before[k][j] == s[i];
        if s.last() == sep {
            assert(pieces[k] == before[k]);
        } else if k < before.len() - 1 {
            assert(pieces[k] == before[k]);
        } else {
            assert(pieces[k] == before[k].push(s.last()));
            assert(pieces[k][j] == s[i]);
        }
        assert(pieces[k][j] == s[i]);
        assert(pieces[k].contains(s[i]));
    }
}

/// A text with no white space at its ends is trimmed.
pub proof fn lemma_trimmed(s: Seq<char>)
    requires
        s.len() > 0,
        !is_space(s[0]),
        !is_space(s.last()),
    ensures
        trimmed(s) == s,
{
}

} // verus!

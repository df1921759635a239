//! How texts are taken apart and put together.

use crate::gtfs as g;
use crate::message as msg;
use crate::osm as o;
use crate::planner as pl;
use crate::text as t;
use vstd::prelude::*;

verus! {

// ---------------------------------------------------------------------------
// Taking apart
// ---------------------------------------------------------------------------

/// Pieces with a separator between them.
pub open spec fn joined(pieces: Seq<Seq<char>>, sep: char) -> Seq<char>
    decreases pieces.len(),
{
    if pieces.len() == 0 {
        Seq::empty()
    } else if pieces.len() == 1 {
        pieces[0]
    } else {
        joined(pieces.drop_last(), sep) + seq![sep] + pieces.last()
    }
}

/// The pieces of a text, joined again, make up the text, and no piece holds the separator.
pub proof fn pieces_join_again(s: Seq<char>, sep: char)
    ensures
        t::split_at(s, sep).len() > 0,
        joined(t::split_at(s, sep), sep) == s,
        forall|i: int|
            0 <= i < t::split_at(s, sep).len() ==> !(#[trigger] t::split_at(s, sep)[i]).contains(
                sep,
            ),
    decreases s.len(),
{
    let all = t::split_at(s, sep);
    if s.len() == 0 {
        assert(all[0] =~= s);
    } else {
        let c = s.last();
        pieces_join_again(s.drop_last(), sep);
        let front = t::split_at(s.drop_last(), sep);
        if c == sep {
            assert(all.drop_last() =~= front);
            assert(joined(all, sep) =~= s);
        } else {
            let last = front.last();
            assert(all.last() == last.push(c));
            assert(all.drop_last() =~= front.drop_last());
            assert forall|i: int| 0 <= i < all.len() implies !(#[trigger] all[i]).contains(sep) by {
                if i < front.len() - 1 {
                    assert(all[i] == front[i]);
                } else {
                    assert(!front[i].contains(sep));
                    if all[i].contains(sep) {
                        let k = choose|k: int| 0 <= k < all[i].len() && all[i][k] == sep;
                        assert(front[i][k] == sep);
                    }
                }
            }
            assert(s =~= s.drop_last().push(c));
            if front.len() == 1 {
                assert(joined(all, sep) == last.push(c));
            } else {
                let before = joined(front.drop_last(), sep);
                assert(joined(front, sep) == before + seq![sep] + last);
                assert(joined(all, sep) == before + seq![sep] + last.push(c));
                assert(joined(all, sep) =~= (before + seq![sep] + last).push(c));
            }
        }
    }
}

/// All characters are white space.
pub open spec fn blank(s: Seq<char>) -> bool {
    forall|i: int| 0 <= i < s.len() ==> t::is_space(#[trigger] s[i])
}

proof fn lemma_trim_end(a: Seq<char>, b: Seq<char>)
    requires
        blank(b),
    ensures
        t::trim_end(a + b) == t::trim_end(a),
    decreases b.len(),
{
    if b.len() > 0 {
        assert((a + b).last() == b[b.len() - 1]);
        assert((a + b).drop_last() =~= a + b.drop_last());
        assert(blank(b.drop_last())) by {
            assert forall|i: int| 0 <= i < b.drop_last().len() implies t::is_space(
                #[trigger] b.drop_last()[i],
            ) by {
                assert(b.drop_last()[i] == b[i]);
            }
        }
        lemma_trim_end(a, b.drop_last());
    } else {
        assert(a + b =~= a);
    }
}

proof fn lemma_trim_start(a: Seq<char>, b: Seq<char>)
    requires
        blank(a),
    ensures
        t::trim_start(a + b) == t::trim_start(b),
    decreases a.len(),
{
    if a.len() > 0 {
        assert((a + b)[0] == a[0]);
        assert((a + b).skip(1) =~= a.skip(1) + b);
        assert(blank(a.skip(1))) by {
            assert forall|i: int| 0 <= i < a.skip(1).len() implies t::is_space(
                #[trigger] a.skip(1)[i],
            ) by {
                assert(a.skip(1)[i] == a[i + 1]);
            }
        }
        lemma_trim_start(a.skip(1), b);
    } else {
        assert(a + b =~= b);
    }
}

/// White space around a text is taken away, and nothing else is. A blank text is left empty.
pub proof fn trimming_leaves_the_middle(a: Seq<char>, s: Seq<char>, b: Seq<char>)
    requires
        blank(a),
        blank(b),
    ensures
        s.len() > 0 && !t::is_space(s[0]) && !t::is_space(s.last()) ==> t::trimmed(a + s + b) == s,
        t::trimmed(a).len() == 0,
        t::is_space(' ') && t::is_space('\t') && t::is_space('\n') && t::is_space('\r'),
        !t::is_space('0') && !t::is_space('a') && !t::is_space('Z') && !t::is_space('-'),
{
    lemma_trim_end(a + s, b);
    if s.len() > 0 && !t::is_space(s[0]) && !t::is_space(s.last()) {
        assert((a + s).last() == s.last());
        lemma_trim_start(a, s);
    }
    lemma_trim_end(Seq::empty(), a);
    assert(Seq::<char>::empty() + a =~= a);
}

/// Large letters become small ones, and nothing else changes.
pub proof fn large_letters_become_small(s: Seq<char>, i: int)
    requires
        0 <= i < s.len(),
    ensures
        o::lowered(s).len() == s.len(),
        0x41 <= s[i] as u32 <= 0x5a ==> o::lowered(s)[i] as u32 == s[i] as u32 + 32,
        !(0x41 <= s[i] as u32 <= 0x5a) ==> o::lowered(s)[i] == s[i],
{
}

// ---------------------------------------------------------------------------
// Numbers
// ---------------------------------------------------------------------------

/// A character stands for a digit: `0` to `9`, and then letters, large or small.
pub open spec fn digit(c: char, d: int) -> bool {
    ||| 0 <= d <= 9 && c as u32 == 0x30 + d
    ||| 10 <= d <= 15 && (c as u32 == 0x61 + d - 10 || c as u32 == 0x41 + d - 10)
}

/// A digit behind a number makes it the base times as much, and that digit more. A text that holds
/// anything but digits is no number.
pub proof fn numbers_grow_by_digits(s: Seq<char>, c: char, base: int, d: int)
    requires
        2 <= base <= 16,
        0 <= d < base,
        digit(c, d),
    ensures
        t::digits_value(Seq::empty(), base) == Some(0int),
        t::digits_value(s, base) is Some ==> t::digits_value(s.push(c), base) == Some(
            t::digits_value(s, base)->0 * base + d,
        ),
        t::digits_value(s, base) is None ==> t::digits_value(s.push(c), base) is None,
{
    assert(s.push(c).drop_last() =~= s);
}

/// What is no digit makes a text no number.
pub proof fn only_digits_make_numbers(s: Seq<char>, c: char, base: int)
    requires
        2 <= base <= 16,
        forall|d: int| 0 <= d < base ==> !#[trigger] digit(c, d),
    ensures
        t::digits_value(s.push(c), base) is None,
{
    if t::digit_value(c, base) is Some {
        assert(digit(c, t::digit_value(c, base)->0));
    }
}

/// A number is read up to the greatest allowed. A plus sign in front changes nothing, a minus sign
/// turns it around where that is allowed, and no digits are no number.
pub proof fn signs_stand_in_front(s: Seq<char>, max: int)
    requires
        s.len() > 0,
        s[0] != '+',
        s[0] != '-',
        max >= 0,
    ensures
        t::decimal(seq!['+'] + s, max) == t::decimal(s, max),
        t::digits_value(s, 10) is None ==> t::decimal(s, max) is None,
        t::digits_value(s, 10) matches Some(v) ==> {
            &&& v <= max ==> t::decimal(s, max) == Some(v)
            &&& v > max ==> t::decimal(s, max) is None
            &&& v <= 0x7fff_ffff ==> t::signed_decimal(s) == Some(v)
            &&& v <= 0x8000_0000 ==> t::signed_decimal(seq!['-'] + s) == Some(-v)
            &&& v <= 0x7fff_ffff_ffff_ffff ==> t::long_decimal(s) == Some(v)
            &&& v <= 0x8000_0000_0000_0000 ==> t::long_decimal(seq!['-'] + s) == Some(-v)
        },
        t::decimal(Seq::empty(), max) is None,
{
    assert((seq!['+'] + s).skip(1) =~= s);
    assert((seq!['-'] + s).skip(1) =~= s);
    assert((seq!['-'] + s)[0] == '-');
    assert((seq!['+'] + s)[0] == '+');
}

/// A number is written digit by digit, the last one being what is left over by the base, and with
/// small letters. Zeros fill it up in front.
pub proof fn numbers_are_written_in_digits(n: int, base: int, width: int)
    requires
        2 <= base <= 16,
        n >= 0,
        width >= 1,
    ensures
        ({
            let s = t::padded(n, base, width);
            &&& s.len() > 0
            &&& s.drop_last() == t::padded(n / base, base, width - 1)
            &&& n % base <= 9 ==> s.last() as u32 == 0x30 + n % base
            &&& n % base >= 10 ==> s.last() as u32 == 0x61 + n % base - 10
        }),
        t::padded(0, base, 0).len() == 0,
{
    let s = t::padded(n, base, width);
    assert(0 <= n % base < base) by (nonlinear_arith)
        requires
            base >= 2,
    ;
    if n == 0 {
        assert(n / base == 0) by (nonlinear_arith)
            requires
                n == 0,
                base >= 2,
        ;
        assert(n % base == 0) by (nonlinear_arith)
            requires
                n == 0,
                base >= 2,
        ;
        assert(s.drop_last() =~= t::padded(0, base, width - 1));
    } else {
        let sig = t::significant_digits(n, base);
        assert(sig == t::significant_digits(n / base, base).push(t::digit_char(n % base)));
        assert(s.drop_last() =~= t::padded(n / base, base, width - 1));
        assert(s.last() == t::digit_char(n % base));
    }
}

/// Two digits in writing.
pub open spec fn pair(s: Seq<char>, at: int, n: int) -> bool {
    s[at] as u32 == 0x30 + n / 10 && s[at + 1] as u32 == 0x30 + n % 10
}

proof fn lemma_pair(n: int)
    requires
        0 <= n < 100,
    ensures
        t::padded(n, 10, 2).len() == 2,
        pair(t::padded(n, 10, 2), 0, n),
{
    let s = t::padded(n, 10, 2);
    numbers_are_written_in_digits(n, 10, 2);
    numbers_are_written_in_digits(n / 10, 10, 1);
    let front = s.drop_last();
    assert((n / 10) / 10 == 0);
    assert(front.drop_last() == t::padded(0, 10, 0));
    assert(front.len() == 1);
    assert(front.last() == front[0]);
    assert(s[0] == front[0]);
    assert(s[1] == s.last());
}

/// A time of day is written as hour, minute and second, in two digits each.
pub proof fn times_are_written_in_pairs(secs: int)
    requires
        0 <= secs < 360_000,
    ensures
        ({
            let s = g::time_text(secs);
            &&& s.len() == 8
            &&& pair(s, 0, secs / 3600)
            &&& s[2] == ':'
            &&& pair(s, 3, secs % 3600 / 60)
            &&& s[5] == ':'
            &&& pair(s, 6, secs % 60)
        }),
{
    lemma_pair(secs / 3600);
    lemma_pair(secs % 3600 / 60);
    lemma_pair(secs % 60);
}

/// A moment is written as the date, a `T`, the time of day in pairs of digits and a `Z`. After
/// midnight the hours start again.
pub proof fn moments_are_written_in_pairs(date: Seq<char>, secs: u32)
    ensures
        ({
            let s = pl::iso_text(date, secs);
            let n = date.len() as int;
            &&& s.len() == n + 10
            &&& s.take(n) == date
            &&& s[n] == 'T'
            &&& pair(s, n + 1, (secs % 86400) as int / 3600)
            &&& s[n + 3] == ':'
            &&& pair(s, n + 4, secs as int % 3600 / 60)
            &&& s[n + 6] == ':'
            &&& pair(s, n + 7, secs as int % 60)
            &&& s[n + 9] == 'Z'
        }),
{
    reveal_strlit("T");
    reveal_strlit(":");
    reveal_strlit("Z");
    let h = (secs / 3600 % 24) as int;
    assert(h == (secs % 86400) as int / 3600);
    lemma_pair(h);
    lemma_pair((secs % 3600 / 60) as int);
    lemma_pair((secs % 60) as int);
    assert(pl::iso_text(date, secs).take(date.len() as int) =~= date);
}

/// A color is written in six digits.
pub proof fn colors_are_written_in_six_digits(c: u32)
    ensures
        pl::hex_of(c).len() == 6,
        pl::color_text(c) is Some <==> c != 0,
        c != 0 ==> pl::color_text(c) == Some(pl::hex_of(c)),
{
    let n = (c % 0x100_0000) as int;
    numbers_are_written_in_digits(n, 16, 6);
    numbers_are_written_in_digits(n / 16, 16, 5);
    numbers_are_written_in_digits(n / 16 / 16, 16, 4);
    numbers_are_written_in_digits(n / 16 / 16 / 16, 16, 3);
    numbers_are_written_in_digits(n / 16 / 16 / 16 / 16, 16, 2);
    numbers_are_written_in_digits(n / 16 / 16 / 16 / 16 / 16, 16, 1);
    assert(n / 16 / 16 / 16 / 16 / 16 / 16 == 0);
}

// ---------------------------------------------------------------------------
// Bytes
// ---------------------------------------------------------------------------

/// Numbers are stored in four bytes each, the lowest first.
pub proof fn numbers_are_stored_lowest_first(s: Seq<u32>, i: int)
    requires
        0 <= i < s.len(),
    ensures
        msg::packed(s).len() == 4 * s.len(),
        msg::packed(s)[4 * i] == s[i] as int % 256,
        msg::packed(s)[4 * i + 1] == s[i] as int / 256 % 256,
        msg::packed(s)[4 * i + 2] == s[i] as int / 65536 % 256,
        msg::packed(s)[4 * i + 3] == s[i] as int / 16777216,
    decreases s.len(),
{
    msg::lemma_packed_len(s);
    msg::lemma_packed_len(s.drop_last());
    if i < s.len() - 1 {
        numbers_are_stored_lowest_first(s.drop_last(), i);
    }
}

/// The code of a currency is hashed letter by letter, from 5381 on: what was there counts 33 times,
/// and the letter is added, within 32 bits.
pub proof fn hashes_follow_the_letters(bytes: Seq<u8>, b: u8)
    ensures
        msg::hash_of(Seq::empty(), 0) == 5381,
        msg::hash_of(bytes.push(b), bytes.len() as int + 1) == (33 * msg::hash_of(
            bytes,
            bytes.len() as int,
        ) + b) % 0x1_0000_0000,
{
    lemma_hash(bytes, b, bytes.len() as int);
}

proof fn lemma_hash(bytes: Seq<u8>, b: u8, n: int)
    requires
        n <= bytes.len(),
    ensures
        msg::hash_of(bytes.push(b), n) == msg::hash_of(bytes, n),
    decreases n,
{
    if n > 0 {
        lemma_hash(bytes, b, n - 1);
    }
}

} // verus!

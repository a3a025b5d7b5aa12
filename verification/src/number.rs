//! Decimal numbers as text.
use vstd::prelude::*;

verus! {

// ------------------------------------------------------------------- writing

/// The decimal digits of a number.
pub open spec fn digits(n: nat) -> Seq<u8>
    decreases n,
{
    if n < 10 {
        seq![(n + 48) as u8]
    } else {
        digits(n / 10).push((n % 10 + 48) as u8)
    }
}

/// A number in decimal.
pub open spec fn decimal(n: int) -> Seq<u8> {
    if n < 0 {
        seq![45u8] + digits((-n) as nat)
    } else {
        digits(n as nat)
    }
}

fn push_digits(out: &mut Vec<u8>, n: u64)
    ensures
        final(out)@ == old(out)@ + digits(n as nat),
    decreases n,
{
    let ghost before = out@;
    if n >= 10 {
        push_digits(out, n / 10);
    }
    out.push(48u8 + (n % 10) as u8);
    proof {
        assert(out@ =~= before + digits(n as nat));
    }
}

/// A number in decimal.
pub fn decimal_bytes(n: i64) -> (r: Vec<u8>)
    ensures
        r@ == decimal(n as int),
{
    let mut out: Vec<u8> = Vec::new();
    if n < 0 {
        out.push(45);
        let size: u64 = (-(n + 1)) as u64 + 1;
        push_digits(&mut out, size);
    } else {
        push_digits(&mut out, n as u64);
    }
    proof {
        assert(out@ =~= decimal(n as int));
    }
    out
}

// ------------------------------------------------------------------- reading

pub open spec fn is_space_byte(b: u8) -> bool {
    b == 32 || 9 <= b <= 13
}

pub open spec fn is_digit_byte(b: u8) -> bool {
    48 <= b <= 57
}

/// The bytes behind leading white space.
pub open spec fn behind_spaces(bytes: Seq<u8>) -> Seq<u8>
    decreases bytes.len(),
{
    if bytes.len() > 0 && is_space_byte(bytes[0]) {
        behind_spaces(bytes.skip(1))
    } else {
        bytes
    }
}

/// The number that the leading digits write, behind those that wrote `so_far`.
pub open spec fn leading_digits(bytes: Seq<u8>, so_far: int) -> int
    decreases bytes.len(),
{
    if bytes.len() > 0 && is_digit_byte(bytes[0]) {
        leading_digits(bytes.skip(1), so_far * 10 + (bytes[0] - 48))
    } else {
        so_far
    }
}

/// The nearest 64-bit number.
pub open spec fn clamped(n: int) -> i64 {
    if n > i64::MAX {
        i64::MAX
    } else if n < i64::MIN {
        i64::MIN
    } else {
        n as i64
    }
}

/// The number at the front of some bytes, as SQLite casts text to an integer:
/// white space, a sign, digits; zero where there is no digit; the nearest number
/// where it is out of range.
pub open spec fn leading_integer(bytes: Seq<u8>) -> i64 {
    let rest = behind_spaces(bytes);
    if rest.len() > 0 && rest[0] == 45 {
        clamped(-leading_digits(rest.skip(1), 0))
    } else if rest.len() > 0 && rest[0] == 43 {
        clamped(leading_digits(rest.skip(1), 0))
    } else {
        clamped(leading_digits(rest, 0))
    }
}

proof fn lemma_leading_digits_grow(bytes: Seq<u8>, so_far: int)
    requires
        so_far >= 0,
    ensures
        leading_digits(bytes, so_far) >= so_far,
    decreases bytes.len(),
{
    if bytes.len() > 0 && is_digit_byte(bytes[0]) {
        lemma_leading_digits_grow(bytes.skip(1), so_far * 10 + (bytes[0] - 48));
    }
}

/// The number that the digits from `start` on write; at most one more than a
/// 64-bit number can be below zero.
fn read_digits(bytes: &Vec<u8>, start: usize) -> (r: u64)
    requires
        start <= bytes@.len(),
    ensures
        leading_digits(bytes@.skip(start as int), 0) <= 9223372036854775808 ==> r
            == leading_digits(bytes@.skip(start as int), 0),
        leading_digits(bytes@.skip(start as int), 0) > 9223372036854775808 ==> r
            == 9223372036854775809,
{
    let mut i: usize = start;
    let mut n: u64 = 0;
    while i < bytes.len() && bytes[i] >= 48 && bytes[i] <= 57
        invariant
            start <= i <= bytes@.len(),
            n <= 9223372036854775808,
            leading_digits(bytes@.skip(start as int), 0) == leading_digits(
                bytes@.skip(i as int),
                n as int,
            ),
        decreases bytes.len() - i,
    {
        let d: u64 = (bytes[i] - 48) as u64;
        proof {
            assert(bytes@.skip(i as int)[0] == bytes@[i as int]);
            assert(bytes@.skip(i as int).skip(1) =~= bytes@.skip(i + 1));
        }
        if n > 922337203685477580 || (n == 922337203685477580 && d > 8) {
            proof {
                lemma_leading_digits_grow(bytes@.skip(i + 1), n * 10 + d);
            }
            return 9223372036854775809;
        }
        n = n * 10 + d;
        i = i + 1;
    }
    proof {
        if i < bytes@.len() {
            assert(bytes@.skip(i as int)[0] == bytes@[i as int]);
        }
    }
    n
}

/// The number at the front of some bytes.
pub fn read_leading_integer(bytes: &Vec<u8>) -> (r: i64)
    ensures
        r == leading_integer(bytes@),
{
    let mut i: usize = 0;
    proof {
        assert(bytes@.skip(0) =~= bytes@);
    }
    while i < bytes.len() && (bytes[i] == 32 || (bytes[i] >= 9 && bytes[i] <= 13))
        invariant
            i <= bytes@.len(),
            behind_spaces(bytes@) == behind_spaces(bytes@.skip(i as int)),
        decreases bytes.len() - i,
    {
        proof {
            assert(bytes@.skip(i as int)[0] == bytes@[i as int]);
            assert(bytes@.skip(i as int).skip(1) =~= bytes@.skip(i + 1));
        }
        i = i + 1;
    }
    let ghost rest = bytes@.skip(i as int);
    proof {
        if i < bytes@.len() {
            assert(rest[0] == bytes@[i as int]);
        }
        assert(behind_spaces(bytes@) == rest);
    }
    if i < bytes.len() && bytes[i] == 45 {
        proof {
            assert(rest.skip(1) =~= bytes@.skip(i + 1));
        }
        let n: u64 = read_digits(bytes, i + 1);
        if n >= 9223372036854775808 {
            i64::MIN
        } else {
            -(n as i64)
        }
    } else {
        let start: usize = if i < bytes.len() && bytes[i] == 43 {
            proof {
                assert(rest.skip(1) =~= bytes@.skip(i + 1));
            }
            i + 1
        } else {
            i
        };
        let n: u64 = read_digits(bytes, start);
        if n > 9223372036854775807 {
            i64::MAX
        } else {
            n as i64
        }
    }
}

// -------------------------------------------------------------------- laws

proof fn lemma_digits_read(n: nat, tail: Seq<u8>)
    ensures
        leading_digits(digits(n) + tail, 0) == leading_digits(tail, n as int),
    decreases n,
{
    let all = digits(n) + tail;
    if n < 10 {
        assert(all.skip(1) =~= tail);
        assert(all[0] == (n + 48) as u8);
    } else {
        let last = (n % 10 + 48) as u8;
        let more = seq![last] + tail;
        assert(all =~= digits(n / 10) + more);
        lemma_digits_read(n / 10, more);
        assert(more.skip(1) =~= tail);
        assert(more[0] == last);
        assert((n / 10) * 10 + n % 10 == n);
    }
}

proof fn lemma_digits_start(n: nat)
    ensures
        digits(n).len() > 0,
        is_digit_byte(digits(n)[0]),
    decreases n,
{
    if n >= 10 {
        lemma_digits_start(n / 10);
    }
}

/// What is written as a number is read as that number.
pub proof fn law_numbers_read_back(n: i64)
    ensures
        leading_integer(decimal(n as int)) == n,
{
    let none = Seq::<u8>::empty();
    if n < 0 {
        let size = (-(n as int)) as nat;
        let all = decimal(n as int);
        lemma_digits_read(size, none);
        assert(digits(size) + none =~= digits(size));
        assert(all[0] == 45);
        assert(all.skip(1) =~= digits(size));
    } else {
        lemma_digits_start(n as nat);
        lemma_digits_read(n as nat, none);
        assert(digits(n as nat) + none =~= digits(n as nat));
    }
}

/// A number is written with its digits in decimal, the last one last, behind a
/// minus sign where it is below zero.
pub proof fn law_numbers_are_written_in_decimal(n: nat, d: nat)
    requires
        d < 10,
    ensures
        decimal(d as int) == seq![(48 + d) as u8],
        n > 0 ==> decimal((10 * n + d) as int) == decimal(n as int).push((48 + d) as u8),
        n > 0 ==> decimal(-(n as int)) == seq![45u8] + decimal(n as int),
{
    if n > 0 {
        assert((10 * n + d) / 10 == n);
        assert((10 * n + d) % 10 == d);
    }
}

/// A number is read from its digits, behind white space and a sign and up to the
/// first character that is no digit. The nearest number is taken for one that is
/// out of range, and zero where there is no digit.
pub proof fn law_a_leading_number_is_read(
    spaces: Seq<u8>,
    n: nat,
    rest: Seq<u8>,
)
    requires
        forall|i: int|
            0 <= i < spaces.len() ==> (#[trigger] spaces[i] == 32 || 9 <= spaces[i] <= 13),
        rest.len() > 0 ==> !(48 <= rest[0] <= 57),
    ensures
        n <= i64::MAX ==> leading_integer(spaces + digits(n) + rest) == n,
        n <= i64::MAX ==> leading_integer(spaces + seq![43u8] + digits(n) + rest) == n,
        n <= i64::MAX ==> leading_integer(spaces + seq![45u8] + digits(n) + rest) == -n,
        n > i64::MAX ==> leading_integer(spaces + digits(n) + rest) == i64::MAX,
        n > i64::MAX ==> leading_integer(spaces + seq![45u8] + digits(n) + rest) == i64::MIN,
        rest.len() > 0 && !(rest[0] == 32 || 9 <= rest[0] <= 13 || rest[0] == 43 || rest[0] == 45)
            ==> leading_integer(spaces + rest) == 0,
        leading_integer(spaces) == 0,
{
    lemma_digits_start(n);
    lemma_digits_read(n, rest);
    let d = digits(n) + rest;
    let plus = seq![43u8] + d;
    let minus = seq![45u8] + d;
    assert(spaces + digits(n) + rest =~= spaces + d);
    assert(spaces + seq![43u8] + digits(n) + rest =~= spaces + plus);
    assert(spaces + seq![45u8] + digits(n) + rest =~= spaces + minus);
    assert(d[0] == digits(n)[0]);
    assert(plus.skip(1) =~= d);
    assert(minus.skip(1) =~= d);
    lemma_behind_spaces(spaces, d);
    lemma_behind_spaces(spaces, plus);
    lemma_behind_spaces(spaces, minus);
    lemma_behind_spaces(spaces, Seq::empty());
    assert(spaces + Seq::<u8>::empty() =~= spaces);
    if rest.len() > 0 && !is_space_byte(rest[0]) {
        lemma_behind_spaces(spaces, rest);
    }
}

proof fn lemma_behind_spaces(spaces: Seq<u8>, rest: Seq<u8>)
    requires
        forall|i: int|
            0 <= i < spaces.len() ==> (#[trigger] spaces[i] == 32 || 9 <= spaces[i] <= 13),
        rest.len() > 0 ==> !is_space_byte(rest[0]),
    ensures
        behind_spaces(spaces + rest) == rest,
    decreases spaces.len(),
{
    let all = spaces + rest;
    if spaces.len() > 0 {
        assert(all[0] == spaces[0]);
        assert(all.skip(1) =~= spaces.skip(1) + rest);
        let fewer = spaces.skip(1);
        assert forall|i: int| 0 <= i < fewer.len() implies (#[trigger] fewer[i] == 32 || 9
            <= fewer[i] <= 13) by {
            assert(fewer[i] == spaces[i + 1]);
        }
        lemma_behind_spaces(fewer, rest);
    } else {
        assert(all =~= rest);
    }
}

} // verus!

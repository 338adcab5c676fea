//! Whole numbers as decimal text, the form in which a frame dictionary
//! holds a rotation and the three parts of a translation.

use vstd::prelude::*;

verus! {

/// The byte of the minus sign.
pub const MINUS: u8 = 45;

/// The byte of the space that parts a translation.
pub const SPACE: u8 = 32;

/// The byte of the digit `d`, for `0 <= d <= 9`.
pub open spec fn digit(d: int) -> u8 {
    (48 + d) as u8
}

/// Whether `b` is the byte of a decimal digit.
pub open spec fn is_digit(b: u8) -> bool {
    48 <= b <= 57
}

/// The decimal digits of `n`, most significant first, without leading
/// zeros.
pub open spec fn digits(n: nat) -> Seq<u8>
    decreases n,
{
    if n < 10 {
        seq![digit(n as int)]
    } else {
        digits(n / 10).push(digit((n % 10) as int))
    }
}

/// The decimal text of `x`: a minus sign where `x` is negative, then the
/// digits of its magnitude.
pub open spec fn decimal(x: int) -> Seq<u8> {
    if x < 0 {
        seq![MINUS] + digits((-x) as nat)
    } else {
        digits(x as nat)
    }
}

/// Whether `s` is a non-empty run of digits.
pub open spec fn all_digits(s: Seq<u8>) -> bool {
    s.len() > 0 && forall|i: int| 0 <= i < s.len() ==> is_digit(#[trigger] s[i])
}

/// The number that a run of digits writes.
pub open spec fn digits_value(s: Seq<u8>) -> nat
    decreases s.len(),
{
    if s.len() == 0 {
        0
    } else {
        (digits_value(s.drop_last()) * 10 + (s.last() - 48)) as nat
    }
}

/// The number that a decimal text writes, where it is one and the number
/// fits 32 bits: an optional minus sign, then a non-empty run of digits.
pub open spec fn parse_decimal(s: Seq<u8>) -> Option<int> {
    if s.len() > 0 && s[0] == MINUS {
        let d = s.subrange(1, s.len() as int);
        if all_digits(d) && digits_value(d) <= 0x8000_0000 {
            Some(-(digits_value(d) as int))
        } else {
            None
        }
    } else if all_digits(s) && digits_value(s) <= i32::MAX {
        Some(digits_value(s) as int)
    } else {
        None
    }
}

/// The offset of the first space in `s`, or the length of `s` where it
/// holds none.
pub open spec fn first_space(s: Seq<u8>) -> int
    decreases s.len(),
{
    if s.len() == 0 || s[0] == SPACE {
        0
    } else {
        1 + first_space(s.drop_first())
    }
}

/// The text of a translation: three decimal numbers parted by single
/// spaces.
pub open spec fn triple(x: int, y: int, z: int) -> Seq<u8> {
    decimal(x) + (seq![SPACE] + (decimal(y) + (seq![SPACE] + decimal(z))))
}

/// The three numbers that the text of a translation writes, where it is
/// one: three decimal numbers parted by single spaces, and nothing else.
pub open spec fn parse_triple(s: Seq<u8>) -> Option<(int, int, int)> {
    let i = first_space(s);
    if i >= s.len() {
        None
    } else {
        let rest = s.subrange(i + 1, s.len() as int);
        let j = first_space(rest);
        if j >= rest.len() {
            None
        } else {
            match (
                parse_decimal(s.subrange(0, i)),
                parse_decimal(rest.subrange(0, j)),
                parse_decimal(rest.subrange(j + 1, rest.len() as int)),
            ) {
                (Some(x), Some(y), Some(z)) => Some((x, y, z)),
                _ => None,
            }
        }
    }
}

/// The `k`-th power of ten.
pub open spec fn pow10(k: nat) -> nat
    decreases k,
{
    if k == 0 {
        1
    } else {
        10 * pow10((k - 1) as nat)
    }
}

/// A number below the `k`-th power of ten has at most `k` digits.
pub proof fn lemma_digits_len(n: nat, k: nat)
    requires
        1 <= k,
        n < pow10(k),
    ensures
        1 <= digits(n).len() <= k,
    decreases k,
{
    if n >= 10 {
        assert(pow10(1) == 10) by {
            reveal_with_fuel(pow10, 2);
        }
        assert(k >= 2);
        lemma_digits_len(n / 10, (k - 1) as nat);
    }
}

/// The digits of a number are digits, and write that number.
pub proof fn lemma_digits(n: nat)
    ensures
        all_digits(digits(n)),
        digits_value(digits(n)) == n,
        1 <= digits(n).len(),
        n < 10_000_000_000 ==> digits(n).len() <= 10,
    decreases n,
{
    if n < 10_000_000_000 {
        assert(pow10(10) == 10_000_000_000) by {
            reveal_with_fuel(pow10, 11);
        }
        lemma_digits_len(n, 10);
    }
    if n < 10 {
        assert(digits(n).drop_last() =~= Seq::<u8>::empty());
        assert(digits_value(digits(n).drop_last()) == 0);
    } else {
        lemma_digits(n / 10);
        let d = digits(n);
        assert(d.drop_last() =~= digits(n / 10));
        assert(d.last() == digit((n % 10) as int));
    }
}

/// The decimal text of a 32-bit number writes that number, is short, and
/// holds no space.
pub proof fn lemma_decimal_roundtrip(x: int)
    requires
        i32::MIN <= x <= i32::MAX,
    ensures
        parse_decimal(decimal(x)) == Some(x),
        1 <= decimal(x).len() <= 11,
        forall|i: int| 0 <= i < decimal(x).len() ==> #[trigger] decimal(x)[i] != SPACE,
        forall|i: int| 0 <= i < decimal(x).len() ==> #[trigger] decimal(x)[i] < 128,
{
    if x < 0 {
        let n = (-x) as nat;
        lemma_digits(n);
        assert(decimal(x).subrange(1, decimal(x).len() as int) =~= digits(n));
        assert forall|i: int| 0 <= i < decimal(x).len() implies #[trigger] decimal(x)[i] != SPACE
            && decimal(x)[i] < 128 by {
            if i > 0 {
                assert(decimal(x)[i] == digits(n)[i - 1]);
            }
        }
    } else {
        lemma_digits(x as nat);
        assert(decimal(x)[0] != MINUS);
    }
}

/// The first space of a text is where a space stands and none stands
/// before.
pub proof fn lemma_first_space(s: Seq<u8>, i: int)
    requires
        0 <= i <= s.len(),
        forall|k: int| 0 <= k < i ==> #[trigger] s[k] != SPACE,
        i == s.len() || s[i] == SPACE,
    ensures
        first_space(s) == i,
    decreases s.len(),
{
    if i > 0 {
        let t = s.drop_first();
        assert forall|k: int| 0 <= k < i - 1 implies #[trigger] t[k] != SPACE by {
            assert(t[k] == s[k + 1]);
        }
        lemma_first_space(t, i - 1);
    }
}

/// The text of a translation writes its three numbers.
pub proof fn lemma_triple_roundtrip(x: int, y: int, z: int)
    requires
        i32::MIN <= x <= i32::MAX,
        i32::MIN <= y <= i32::MAX,
        i32::MIN <= z <= i32::MAX,
    ensures
        parse_triple(triple(x, y, z)) == Some((x, y, z)),
        5 <= triple(x, y, z).len() <= 35,
        forall|i: int| 0 <= i < triple(x, y, z).len() ==> #[trigger] triple(x, y, z)[i] < 128,
{
    lemma_decimal_roundtrip(x);
    lemma_decimal_roundtrip(y);
    lemma_decimal_roundtrip(z);
    let s = triple(x, y, z);
    let i = decimal(x).len() as int;
    assert forall|k: int| 0 <= k < i implies #[trigger] s[k] != SPACE by {
        assert(s[k] == decimal(x)[k]);
    }
    lemma_first_space(s, i);
    let rest = s.subrange(i + 1, s.len() as int);
    assert(rest =~= decimal(y) + (seq![SPACE] + decimal(z)));
    let j = decimal(y).len() as int;
    assert forall|k: int| 0 <= k < j implies #[trigger] rest[k] != SPACE by {
        assert(rest[k] == decimal(y)[k]);
    }
    lemma_first_space(rest, j);
    assert(s.subrange(0, i) =~= decimal(x));
    assert(rest.subrange(0, j) =~= decimal(y));
    assert(rest.subrange(j + 1, rest.len() as int) =~= decimal(z));
    assert forall|k: int| 0 <= k < s.len() implies #[trigger] s[k] < 128 by {
        if k < i {
            assert(s[k] == decimal(x)[k]);
        } else if k == i {
        } else if k < i + 1 + j {
            assert(s[k] == decimal(y)[k - i - 1]);
        } else if k == i + 1 + j {
        } else {
            assert(s[k] == decimal(z)[k - i - j - 2]);
        }
    }
}

/// The number that a run of digits writes grows with the run.
pub proof fn lemma_digits_value_grows(s: Seq<u8>, i: int)
    requires
        0 <= i <= s.len(),
        forall|k: int| 0 <= k < s.len() ==> is_digit(#[trigger] s[k]),
    ensures
        digits_value(s.take(i)) <= digits_value(s),
    decreases s.len() - i,
{
    if i == s.len() {
        assert(s.take(i) =~= s);
    } else {
        lemma_digits_value_grows(s, i + 1);
        assert(s.take(i + 1).drop_last() =~= s.take(i));
        assert(s.take(i + 1).last() == s[i]);
    }
}

/// Appends the digits of `n` to `out`.
fn push_digits(out: &mut Vec<u8>, n: u32)
    ensures
        final(out)@ == old(out)@ + digits(n as nat),
    decreases n,
{
    if n >= 10 {
        push_digits(out, n / 10);
    }
    out.push(48 + (n % 10) as u8);
    assert(out@ =~= old(out)@ + digits(n as nat));
}

/// Appends the decimal text of `x` to `out`.
pub fn push_decimal(out: &mut Vec<u8>, x: i32)
    ensures
        final(out)@ == old(out)@ + decimal(x as int),
{
    if x < 0 {
        out.push(MINUS);
        let magnitude: u32 = (-(x as i64)) as u32;
        push_digits(out, magnitude);
        assert(out@ =~= old(out)@ + decimal(x as int));
    } else {
        push_digits(out, x as u32);
    }
}

/// Appends the text of the translation `(x, y, z)` to `out`.
pub fn push_triple(out: &mut Vec<u8>, x: i32, y: i32, z: i32)
    ensures
        final(out)@ == old(out)@ + triple(x as int, y as int, z as int),
{
    push_decimal(out, x);
    out.push(SPACE);
    push_decimal(out, y);
    out.push(SPACE);
    push_decimal(out, z);
    assert(out@ =~= old(out)@ + triple(x as int, y as int, z as int));
}

/// The number that the bytes `text[from..to]` write as a run of digits,
/// where they are one and the number is at most `limit`.
fn read_digits(text: &[u8], from: usize, to: usize, limit: u64) -> (value: Option<u64>)
    requires
        from <= to <= text@.len(),
        limit <= 0x8000_0000,
    ensures
        value is Some <==> all_digits(text@.subrange(from as int, to as int)) && digits_value(
            text@.subrange(from as int, to as int),
        ) <= limit,
        value matches Some(v) ==> v == digits_value(text@.subrange(from as int, to as int)),
{
    let ghost s = text@.subrange(from as int, to as int);
    if from == to {
        return None;
    }
    let mut value: u64 = 0;
    let mut i: usize = from;
    assert(s.take(0) =~= Seq::<u8>::empty());
    while i < to
        invariant
            from <= i <= to <= text@.len(),
            from < to,
            limit <= 0x8000_0000,
            s == text@.subrange(from as int, to as int),
            forall|k: int| 0 <= k < i - from ==> is_digit(#[trigger] s[k]),
            value == digits_value(s.take(i - from)),
            value <= limit,
        decreases to - i,
    {
        let b = text[i];
        assert(s[i - from] == b);
        if b < 48 || b > 57 {
            return None;
        }
        assert(s.take(i - from + 1).drop_last() =~= s.take(i - from));
        assert(s.take(i - from + 1).last() == b);
        value = value * 10 + (b - 48) as u64;
        if value > limit {
            proof {
                if all_digits(s) {
                    lemma_digits_value_grows(s, i - from + 1);
                }
            }
            return None;
        }
        i = i + 1;
    }
    assert(s.take(to - from) =~= s);
    Some(value)
}

/// The number that the bytes `text[from..to]` write as decimal text, where
/// they are one and the number fits 32 bits.
pub fn read_decimal(text: &[u8], from: usize, to: usize) -> (value: Option<i32>)
    requires
        from <= to <= text@.len(),
    ensures
        match parse_decimal(text@.subrange(from as int, to as int)) {
            Some(x) => value == Some(x as i32) && i32::MIN <= x <= i32::MAX,
            None => value is None,
        },
{
    let ghost s = text@.subrange(from as int, to as int);
    if from < to && text[from] == MINUS {
        assert(s[0] == text@[from as int]);
        assert(s.subrange(1, s.len() as int) =~= text@.subrange(from + 1, to as int));
        match read_digits(text, from + 1, to, 0x8000_0000) {
            Some(v) => Some((-(v as i64)) as i32),
            None => None,
        }
    } else {
        if from < to {
            assert(s[0] == text@[from as int]);
        }
        match read_digits(text, from, to, 0x7fff_ffff) {
            Some(v) => Some(v as i32),
            None => None,
        }
    }
}

/// The offset of the first space in `text[from..]`, counted from `from`.
fn find_space(text: &[u8], from: usize) -> (offset: usize)
    requires
        from <= text@.len(),
    ensures
        offset == first_space(text@.subrange(from as int, text@.len() as int)),
        from + offset <= text@.len(),
{
    let ghost s = text@.subrange(from as int, text@.len() as int);
    let mut i: usize = from;
    while i < text.len() && text[i] != SPACE
        invariant
            from <= i <= text@.len(),
            s == text@.subrange(from as int, text@.len() as int),
            forall|k: int| 0 <= k < i - from ==> #[trigger] s[k] != SPACE,
        decreases text@.len() - i,
    {
        assert(s[i - from] == text@[i as int]);
        i = i + 1;
    }
    proof {
        if i < text@.len() {
            assert(s[i - from] == text@[i as int]);
        }
        lemma_first_space(s, i - from);
    }
    i - from
}

/// The three numbers that `text` writes as the text of a translation,
/// where it is one.
pub fn read_triple(text: &[u8]) -> (value: Option<(i32, i32, i32)>)
    ensures
        match parse_triple(text@) {
            Some((x, y, z)) => value == Some((x as i32, y as i32, z as i32)) && i32::MIN <= x
                <= i32::MAX && i32::MIN <= y <= i32::MAX && i32::MIN <= z <= i32::MAX,
            None => value is None,
        },
{
    let len = text.len();
    assert(text@.subrange(0, len as int) =~= text@);
    let i = find_space(text, 0);
    if i >= len {
        return None;
    }
    let ghost rest = text@.subrange(i + 1, len as int);
    let j = find_space(text, i + 1);
    if i + 1 + j >= len {
        return None;
    }
    assert(rest.subrange(0, j as int) =~= text@.subrange(i + 1, i + 1 + j));
    assert(rest.subrange(j + 1, rest.len() as int) =~= text@.subrange(i + 2 + j, len as int));
    let x = read_decimal(text, 0, i);
    let y = read_decimal(text, i + 1, i + 1 + j);
    let z = read_decimal(text, i + 2 + j, len);
    match (x, y, z) {
        (Some(x), Some(y), Some(z)) => Some((x, y, z)),
        _ => None,
    }
}

} // verus!

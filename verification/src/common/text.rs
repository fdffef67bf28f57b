//! Decimal numbers as text.

use vstd::prelude::*;

verus! {

/// The decimal digits of `n`, most significant first.
pub open spec fn digits(n: nat) -> Seq<u8>
    decreases n,
{
    if n < 10 {
        seq![(48 + n) as u8]
    } else {
        digits(n / 10).push((48 + n % 10) as u8)
    }
}

/// The same digits as characters.
pub open spec fn digit_chars(n: nat) -> Seq<char> {
    digits(n).map_values(|b: u8| b as char)
}

pub open spec fn is_digit(b: u8) -> bool {
    48 <= b <= 57
}

/// The number that a string of digits writes.
pub open spec fn value_of(s: Seq<u8>) -> nat
    decreases s.len(),
{
    if s.len() == 0 {
        0
    } else {
        value_of(s.drop_last()) * 10 + (s.last() - 48) as nat
    }
}

/// The text without a leading plus sign.
pub open spec fn unsigned_part(s: Seq<u8>) -> Seq<u8> {
    if s.len() > 0 && s[0] == 43 {
        s.skip(1)
    } else {
        s
    }
}

/// What a text denotes as an unsigned number of at most `max`: one digit or more
/// behind an optional plus sign, and no greater than `max`.
pub open spec fn parsed(s: Seq<u8>, max: nat) -> Option<nat> {
    let body = unsigned_part(s);
    if body.len() > 0 && (forall|i: int| 0 <= i < body.len() ==> is_digit(#[trigger] body[i]))
        && value_of(body) <= max {
        Some(value_of(body))
    } else {
        None
    }
}

proof fn lemma_digits(n: nat)
    ensures
        digits(n).len() > 0,
        forall|i: int| 0 <= i < digits(n).len() ==> is_digit(#[trigger] digits(n)[i]),
        value_of(digits(n)) == n,
    decreases n,
{
    if n < 10 {
        assert(digits(n).drop_last() =~= Seq::<u8>::empty());
        assert(value_of(Seq::<u8>::empty()) == 0);
    } else {
        lemma_digits(n / 10);
        assert(digits(n).drop_last() =~= digits(n / 10));
        assert forall|i: int| 0 <= i < digits(n).len() implies is_digit(
            #[trigger] digits(n)[i],
        ) by {
            if i < digits(n / 10).len() {
                assert(digits(n)[i] == digits(n / 10)[i]);
            }
        }
    }
}

/// A number that was written out is read back.
pub proof fn lemma_decimal_round_trip(n: nat, max: nat)
    requires
        n <= max,
    ensures
        parsed(digits(n), max) == Some(n),
        forall|i: int| 0 <= i < digits(n).len() ==> is_digit(#[trigger] digits(n)[i]),
{
    lemma_digits(n);
    assert(unsigned_part(digits(n)) =~= digits(n));
}

/// Appends the decimal digits of `n`.
pub fn put_decimal(buf: &mut Vec<u8>, n: u64)
    ensures
        final(buf)@ == old(buf)@ + digits(n as nat),
    decreases n,
{
    if n >= 10 {
        put_decimal(buf, n / 10);
    }
    buf.push(48u8 + (n % 10) as u8);
    assert(buf@ =~= old(buf)@ + digits(n as nat));
}

fn digit_text(d: u64) -> (text: &'static str)
    requires
        d < 10,
    ensures
        text@ == seq![((48 + d) as u8) as char],
{
    proof {
        reveal_strlit("0");
        reveal_strlit("1");
        reveal_strlit("2");
        reveal_strlit("3");
        reveal_strlit("4");
        reveal_strlit("5");
        reveal_strlit("6");
        reveal_strlit("7");
        reveal_strlit("8");
        reveal_strlit("9");
    }
    let text: &'static str = match d {
        0 => "0",
        1 => "1",
        2 => "2",
        3 => "3",
        4 => "4",
        5 => "5",
        6 => "6",
        7 => "7",
        8 => "8",
        _ => "9",
    };
    assert(text@ =~= seq![((48 + d) as u8) as char]);
    text
}

/// The decimal digits of `n` as a string.
pub fn decimal(n: u64) -> (text: String)
    ensures
        text@ == digit_chars(n as nat),
    decreases n,
{
    let mut text: String = if n >= 10 {
        decimal(n / 10)
    } else {
        String::new()
    };
    text.append(digit_text(n % 10));
    assert(text@ =~= digit_chars(n as nat));
    text
}

/// The decimal digits of `n` behind as many zeros as make up the width.
pub open spec fn padded(n: nat, width: nat) -> Seq<char> {
    let len = digits(n).len();
    Seq::new(
        if len < width {
            (width - len) as nat
        } else {
            0
        },
        |i: int| '0',
    ) + digit_chars(n)
}

/// Different numbers are written differently at the same width.
pub proof fn lemma_padded_injective(a: nat, b: nat, width: nat)
    ensures
        padded(a, width) == padded(b, width) ==> a == b,
{
    lemma_padded_value(a, width);
    lemma_padded_value(b, width);
}

/// The bytes of a text of single-byte characters.
spec fn bytes_of(s: Seq<char>) -> Seq<u8> {
    s.map_values(|c: char| c as u8)
}

proof fn lemma_padded_value(n: nat, width: nat)
    ensures
        value_of(bytes_of(padded(n, width))) == n,
{
    lemma_digits(n);
    let zeros = (padded(n, width).len() - digits(n).len()) as nat;
    assert(bytes_of(padded(n, width)) =~= Seq::new(zeros, |i: int| 48u8) + digits(n)) by {
        assert forall|i: int| 0 <= i < digits(n).len() implies (digits(n)[i] as char) as u8
            == digits(n)[i] by {
            assert(is_digit(digits(n)[i]));
        }
    }
    lemma_leading_zeros(digits(n), zeros);
}

proof fn lemma_leading_zeros(s: Seq<u8>, zeros: nat)
    ensures
        value_of(Seq::new(zeros, |i: int| 48u8) + s) == value_of(s),
    decreases s.len() + zeros,
{
    let padding = Seq::new(zeros, |i: int| 48u8);
    if s.len() > 0 {
        assert((padding + s).drop_last() =~= padding + s.drop_last());
        lemma_leading_zeros(s.drop_last(), zeros);
    } else if zeros > 0 {
        let shorter = Seq::new((zeros - 1) as nat, |i: int| 48u8);
        assert((padding + s).drop_last() =~= shorter + s);
        lemma_leading_zeros(s, (zeros - 1) as nat);
    } else {
        assert(padding + s =~= s);
    }
}

/// Writes `n` with at least `width` digits.
pub fn padded_decimal(n: u64, width: usize) -> (text: String)
    ensures
        text@ == padded(n as nat, width as nat),
    decreases n,
{
    let rest: usize = if width == 0 {
        0
    } else {
        width - 1
    };
    let mut text: String = if n >= 10 {
        padded_decimal(n / 10, rest)
    } else {
        zeros(rest)
    };
    text.append(digit_text(n % 10));
    assert(text@ =~= padded(n as nat, width as nat));
    text
}

fn zeros(count: usize) -> (text: String)
    ensures
        text@ == Seq::new(count as nat, |i: int| '0'),
{
    proof {
        reveal_strlit("0");
    }
    let mut text: String = String::new();
    let mut i: usize = 0;
    while i < count
        invariant
            i <= count,
            "0"@ == seq!['0'],
            text@ == Seq::new(i as nat, |j: int| '0'),
        decreases count - i,
    {
        text.append("0");
        i += 1;
        assert(text@ =~= Seq::new(i as nat, |j: int| '0'));
    }
    text
}

/// Reads an unsigned number that is no greater than `max`.
pub fn parse_decimal(s: &[u8], max: u64) -> (n: Option<u64>)
    ensures
        match n {
            Some(v) => parsed(s@, max as nat) == Some(v as nat),
            None => parsed(s@, max as nat) is None,
        },
{
    let start: usize = if s.len() > 0 && s[0] == 43 {
        1
    } else {
        0
    };
    let ghost body = unsigned_part(s@);
    assert(body =~= s@.skip(start as int));
    if start == s.len() {
        return None;
    }
    let mut n: u64 = 0;
    let mut i: usize = start;
    assert(s@.subrange(start as int, start as int) =~= Seq::<u8>::empty());
    while i < s.len()
        invariant
            start <= i <= s@.len(),
            start <= 1,
            body == s@.skip(start as int),
            body.len() > 0,
            body == unsigned_part(s@),
            n <= max,
            n == value_of(body.take(i - start)),
            forall|j: int| 0 <= j < i - start ==> is_digit(#[trigger] body[j]),
        decreases s@.len() - i,
    {
        let b: u8 = s[i];
        let ghost k = i - start;
        assert(body[k] == b);
        if b < 48 || b > 57 {
            assert(!is_digit(body[k]));
            return None;
        }
        let d: u64 = (b - 48) as u64;
        assert(body.take(k + 1).drop_last() =~= body.take(k));
        assert(value_of(body.take(k + 1)) == n * 10 + d);
        if n > max / 10 || d > max || n * 10 > max - d {
            proof {
                if forall|j: int| 0 <= j < body.len() ==> is_digit(#[trigger] body[j]) {
                    lemma_value_grows(body, k + 1);
                }
            }
            return None;
        }
        n = n * 10 + d;
        i += 1;
    }
    assert(body.take(s@.len() - start) =~= body);
    Some(n)
}

proof fn lemma_value_grows(s: Seq<u8>, k: int)
    requires
        0 <= k <= s.len(),
        forall|j: int| 0 <= j < s.len() ==> is_digit(#[trigger] s[j]),
    ensures
        value_of(s.take(k)) <= value_of(s),
    decreases s.len() - k,
{
    if k == s.len() {
        assert(s.take(k) =~= s);
    } else {
        lemma_value_grows(s, k + 1);
        assert(s.take(k + 1).drop_last() =~= s.take(k));
        assert(is_digit(s[k]));
    }
}

/// Where `b` first stands in `s`, from `from` on; the length of `s` if it does not.
pub open spec fn first_at(s: Seq<u8>, b: u8, from: int) -> int
    decreases s.len() - from,
{
    if from < 0 || from >= s.len() {
        s.len() as int
    } else if s[from] == b {
        from
    } else {
        first_at(s, b, from + 1)
    }
}

/// The parts of `s` between the bytes `sep`.
pub open spec fn parts(s: Seq<u8>, sep: u8) -> Seq<Seq<u8>>
    decreases s.len(),
    via parts_decreases
{
    let i = first_at(s, sep, 0);
    if i >= s.len() {
        seq![s]
    } else {
        seq![s.take(i)] + parts(s.skip(i + 1), sep)
    }
}

#[via_fn]
proof fn parts_decreases(s: Seq<u8>, sep: u8) {
    lemma_first_at(s, sep, 0);
}

/// A byte that is found stands where it is found, and nowhere before.
pub proof fn lemma_first_at(s: Seq<u8>, b: u8, from: int)
    requires
        0 <= from <= s.len(),
    ensures
        from <= first_at(s, b, from) <= s.len(),
        first_at(s, b, from) < s.len() ==> s[first_at(s, b, from)] == b,
        forall|i: int| from <= i < first_at(s, b, from) ==> #[trigger] s[i] != b,
    decreases s.len() - from,
{
    if from < s.len() && s[from] != b {
        lemma_first_at(s, b, from + 1);
    }
}

/// A part without the separator ends where the separator follows it.
pub proof fn lemma_first_behind(head: Seq<u8>, b: u8, tail: Seq<u8>)
    requires
        forall|i: int| 0 <= i < head.len() ==> #[trigger] head[i] != b,
    ensures
        first_at(head + seq![b] + tail, b, 0) == head.len(),
        (head + seq![b] + tail).take(head.len() as int) == head,
        (head + seq![b] + tail).skip(head.len() as int + 1) == tail,
        first_at(head, b, 0) == head.len(),
{
    let s = head + seq![b] + tail;
    lemma_first_at(s, b, 0);
    lemma_first_at(head, b, 0);
    let i = first_at(s, b, 0);
    if i < head.len() {
        assert(s[i] == head[i]);
    } else if i > head.len() {
        assert(s[head.len() as int] == b);
    }
    assert(s.take(head.len() as int) =~= head);
    assert(s.skip(head.len() as int + 1) =~= tail);
}

/// Where `b` first stands, from `from` on.
pub fn find_byte(s: &[u8], b: u8, from: usize) -> (i: usize)
    requires
        from <= s@.len(),
    ensures
        i == first_at(s@, b, from as int),
        from <= i <= s@.len(),
{
    let mut i: usize = from;
    while i < s.len() && s[i] != b
        invariant
            from <= i <= s@.len(),
            first_at(s@, b, from as int) == first_at(s@, b, i as int),
        decreases s@.len() - i,
    {
        i += 1;
    }
    i
}

pub open spec fn byte_strings(list: Seq<Vec<u8>>) -> Seq<Seq<u8>> {
    list.map_values(|v: Vec<u8>| v@)
}

/// The parts between the bytes `sep`.
pub fn split(s: &[u8], sep: u8) -> (list: Vec<Vec<u8>>)
    ensures
        byte_strings(list@) == parts(s@, sep),
{
    let mut list: Vec<Vec<u8>> = Vec::new();
    let mut from: usize = 0;
    assert(s@.skip(0) =~= s@);
    assert(byte_strings(list@) + parts(s@, sep) =~= parts(s@, sep));
    loop
        invariant
            from <= s@.len(),
            byte_strings(list@) + parts(s@.skip(from as int), sep) == parts(s@, sep),
        decreases s@.len() - from,
    {
        let i: usize = find_byte(s, sep, from);
        let ghost rest = s@.skip(from as int);
        let ghost before = byte_strings(list@);
        proof {
            lemma_first_in_rest(s@, sep, from as int, from as int);
        }
        list.push(crate::common::codec::copy_range(s, from, i));
        proof {
            assert(byte_strings(list@) =~= before.push(s@.subrange(from as int, i as int)));
            assert(s@.subrange(from as int, i as int) =~= rest.take(i - from));
        }
        if i == s.len() {
            proof {
                assert(rest.take(i - from) =~= rest);
                assert(before + seq![rest] =~= byte_strings(list@));
            }
            return list;
        }
        proof {
            assert(rest.skip(i - from + 1) =~= s@.skip(i + 1));
            let more = parts(s@.skip(i + 1), sep);
            assert(before + (seq![rest.take(i - from)] + more) =~= byte_strings(list@) + more);
        }
        from = i + 1;
    }
}

/// The first `b` from `from` on, counted from `start`.
pub proof fn lemma_first_in_rest(s: Seq<u8>, b: u8, start: int, from: int)
    requires
        0 <= start <= from <= s.len(),
    ensures
        first_at(s.skip(start), b, from - start) == first_at(s, b, from) - start,
    decreases s.len() - from,
{
    if from < s.len() && s[from] != b {
        lemma_first_in_rest(s, b, start, from + 1);
    }
}

/// Whether the bytes are text in UTF-8, by `std::str::from_utf8`, which returns an error
/// exactly if they are not.
#[verifier::external_body]
pub(crate) fn is_utf8(bytes: &[u8]) -> (valid: bool)
    ensures
        valid == vstd::utf8::valid_utf8(bytes@),
{
    std::str::from_utf8(bytes).is_ok()
}

/// Bytes below 128 are text.
pub proof fn lemma_ascii_is_utf8(bytes: Seq<u8>)
    requires
        forall|i: int| 0 <= i < bytes.len() ==> #[trigger] bytes[i] < 128,
    ensures
        vstd::utf8::valid_utf8(bytes),
    decreases bytes.len(),
{
    if bytes.len() > 0 {
        let b = bytes[0];
        assert(b & 0x7f <= 0x7f) by (bit_vector);
        lemma_ascii_is_utf8(bytes.skip(1));
        assert(vstd::utf8::pop_first_scalar(bytes) =~= bytes.skip(1));
    }
}

/// What is read as a number: digits alone, behind a plus sign or none, that write a number
/// of at most `max`.
pub proof fn lemma_parsed_bound(s: Seq<u8>, max: nat)
    ensures
        parsed(s, max) matches Some(n) ==> {
            &&& n <= max
            &&& s.len() > 0
            &&& forall|i: int| 0 < i < s.len() ==> 0x30 <= #[trigger] s[i] <= 0x39
            &&& 0x30 <= s[0] <= 0x39 || s[0] == 0x2b && s.len() > 1
        },
{
    if let Some(n) = parsed(s, max) {
        let body = unsigned_part(s);
        assert(is_digit(body[0]));
        assert forall|i: int| 0 < i < s.len() implies 0x30 <= #[trigger] s[i] <= 0x39 by {
            if body == s {
                assert(is_digit(body[i]));
            } else {
                assert(is_digit(body[i - 1]));
            }
        }
    }
}

/// Parts with the byte `sep` between them.
pub open spec fn joined(list: Seq<Seq<u8>>, sep: u8) -> Seq<u8>
    decreases list.len(),
{
    if list.len() == 0 {
        Seq::empty()
    } else if list.len() == 1 {
        list[0]
    } else {
        list[0] + seq![sep] + joined(list.skip(1), sep)
    }
}

/// The parts of a text make it up again, and `sep` stands in none of them.
pub proof fn lemma_parts(s: Seq<u8>, sep: u8)
    ensures
        parts(s, sep).len() > 0,
        joined(parts(s, sep), sep) == s,
        forall|k: int, i: int|
            0 <= k < parts(s, sep).len() && 0 <= i < parts(s, sep)[k].len() ==> #[trigger] parts(
                s,
                sep,
            )[k][i] != sep,
    decreases s.len(),
{
    let i = first_at(s, sep, 0);
    lemma_first_at(s, sep, 0);
    if i < s.len() {
        let rest = s.skip(i + 1);
        lemma_parts(rest, sep);
        let all = parts(s, sep);
        assert(all.skip(1) =~= parts(rest, sep));
        assert(s =~= s.take(i) + seq![sep] + rest);
        assert forall|k: int, j: int|
            0 <= k < all.len() && 0 <= j < all[k].len() implies #[trigger] all[k][j] != sep by {
            if k > 0 {
                assert(all[k] == parts(rest, sep)[k - 1]);
                assert(parts(rest, sep)[k - 1][j] != sep);
            }
        }
    }
}

} // verus!

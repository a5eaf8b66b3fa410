//! Decimal and hexadecimal rendering of unsigned integers.
use vstd::prelude::*;

verus! {

/// The character of a digit below sixteen, in lower case.
pub open spec fn digit(n: nat) -> char {
    if n < 10 {
        (('0' as nat) + n) as char
    } else {
        (('a' as nat) + n - 10) as char
    }
}

/// The shortest decimal text of a number.
pub open spec fn decimal(n: nat) -> Seq<char>
    decreases n,
{
    if n < 10 {
        seq![digit(n)]
    } else {
        decimal(n / 10).push(digit(n % 10))
    }
}

/// `s` with zeros in front up to a width.
pub open spec fn zero_pad(s: Seq<char>, width: nat) -> Seq<char>
    decreases width - s.len(),
{
    if s.len() >= width {
        s
    } else {
        zero_pad(seq!['0'] + s, width)
    }
}

/// The character of a digit below sixteen.
pub fn digit_char(n: u8) -> (c: char)
    requires
        n < 16,
    ensures
        c == digit(n as nat),
{
    if n < 10 {
        (48u8 + n) as char
    } else {
        (87u8 + n) as char
    }
}

/// The decimal digits of a number, as a vector.
fn decimal_chars(n: u128) -> (v: Vec<char>)
    ensures
        v@ == decimal(n as nat),
    decreases n,
{
    if n < 10 {
        let mut v: Vec<char> = Vec::new();
        v.push(digit_char(n as u8));
        v
    } else {
        let mut v = decimal_chars(n / 10);
        v.push(digit_char((n % 10) as u8));
        v
    }
}

/// The decimal text of a number.
pub fn decimal_string(n: u64) -> (s: String)
    ensures
        s@ == decimal(n as nat),
{
    let v = decimal_chars(n as u128);
    crate::text::from_chars(&v)
}

/// The decimal text of a large number.
pub fn wide_string(n: u128) -> (s: String)
    ensures
        s@ == decimal(n as nat),
{
    let v = decimal_chars(n);
    crate::text::from_chars(&v)
}

/// The decimal text of a number, with a sign in front where it is negative.
pub open spec fn signed(n: int) -> Seq<char> {
    if n >= 0 {
        decimal(n as nat)
    } else {
        "-"@ + decimal((-n) as nat)
    }
}

/// The decimal text of a signed number.
pub fn signed_string(n: i64) -> (s: String)
    ensures
        s@ == signed(n as int),
{
    if n >= 0 {
        wide_string(n as u128)
    } else {
        let mut s = "-".to_owned();
        let m: i128 = -(n as i128);
        s.append(wide_string(m as u128).as_str());
        s
    }
}

/// The decimal text of a number, with zeros in front up to a width.
pub fn padded_string(n: u64, width: usize) -> (s: String)
    ensures
        s@ == zero_pad(decimal(n as nat), width as nat),
{
    let mut v = decimal_chars(n as u128);
    while v.len() < width
        invariant
            zero_pad(v@, width as nat) == zero_pad(decimal(n as nat), width as nat),
        decreases width - v.len(),
    {
        let ghost before = v@;
        v.insert(0, '0');
        assert(v@ == seq!['0'] + before);
    }
    crate::text::from_chars(&v)
}

/// The two hexadecimal digits of each byte, in lower case.
pub open spec fn hex(bytes: Seq<u8>) -> Seq<char>
    decreases bytes.len(),
{
    if bytes.len() == 0 {
        Seq::empty()
    } else {
        hex(bytes.drop_last()).push(digit((bytes.last() / 16) as nat)).push(
            digit((bytes.last() % 16) as nat),
        )
    }
}

/// Two digits per byte.
pub proof fn lemma_hex_len(bytes: Seq<u8>)
    ensures
        hex(bytes).len() == 2 * bytes.len(),
    decreases bytes.len(),
{
    if bytes.len() > 0 {
        lemma_hex_len(bytes.drop_last());
    }
}

/// The lower-case hexadecimal text of some bytes.
pub fn hex_lower(bytes: &[u8]) -> (s: String)
    ensures
        s@ == hex(bytes@),
{
    let mut s = String::new();
    let mut i: usize = 0;
    while i < bytes.len()
        invariant
            i <= bytes.len(),
            s@ == hex(bytes@.take(i as int)),
        decreases bytes.len() - i,
    {
        s.push(digit_char(bytes[i] / 16));
        s.push(digit_char(bytes[i] % 16));
        i += 1;
        assert(bytes@.take(i as int).drop_last() == bytes@.take(i - 1));
    }
    assert(bytes@.take(i as int) == bytes@);
    s
}

/// The number that a text of digits stands for.
pub open spec fn number_of(s: Seq<char>) -> int
    decreases s.len(),
{
    if s.len() == 0 {
        0
    } else {
        10 * number_of(s.drop_last()) + (s.last() as int - '0' as int)
    }
}

/// The sixteen digits, in order.
pub proof fn law_digits(n: nat)
    requires
        n < 16,
    ensures
        digit(n) == seq!['0', '1', '2', '3', '4', '5', '6', '7', '8', '9', 'a', 'b', 'c', 'd', 'e', 'f'][n as int],
        n < 10 ==> '0' <= digit(n) <= '9' && digit(n) as int == '0' as int + n,
{
}

/// The text of a number has none but decimal digits, no zero in front, and reads as the
/// number; one below zero has a sign in front.
pub proof fn law_decimal_reads_back(n: nat)
    ensures
        decimal(n).len() > 0,
        number_of(decimal(n)) == n,
        forall|i: int| 0 <= i < decimal(n).len() ==> '0' <= #[trigger] decimal(n)[i] <= '9',
        n > 0 ==> decimal(n)[0] != '0',
        signed(n as int) == decimal(n),
        n > 0 ==> signed(-(n as int)) == seq!['-'] + decimal(n),
    decreases n,
{
    let d = decimal(n);
    reveal_strlit("-");
    assert("-"@ =~= seq!['-']);
    if n < 10 {
        law_digits(n);
        assert(d.drop_last() =~= Seq::<char>::empty());
        assert(d.last() == digit(n));
        assert(number_of(d) == n) by {
            assert(number_of(d.drop_last()) == 0);
        }
    } else {
        law_decimal_reads_back(n / 10);
        law_digits(n % 10);
        let e = decimal(n / 10);
        assert(d.drop_last() =~= e);
        assert(d.last() == digit(n % 10));
        assert(d[0] == e[0]);
        assert(number_of(d) == 10 * (n / 10) as int + (n % 10) as int);
    }
}

/// Padding puts zeros in front up to the width, and never cuts.
pub proof fn law_zero_pad(s: Seq<char>, width: nat)
    ensures
        zero_pad(s, width).len() == (if s.len() < width {
            width
        } else {
            s.len()
        }),
        zero_pad(s, width).skip(zero_pad(s, width).len() - s.len()) == s,
        forall|i: int|
            0 <= i < zero_pad(s, width).len() - s.len() ==> #[trigger] zero_pad(s, width)[i] == '0',
    decreases width - s.len(),
{
    let z = zero_pad(s, width);
    if s.len() < width {
        let t = seq!['0'] + s;
        law_zero_pad(t, width);
        let u = z.skip(z.len() - t.len());
        assert(u == t);
        assert(z.skip(z.len() - s.len()) =~= u.skip(1));
        assert(t.skip(1) =~= s);
        assert forall|i: int| 0 <= i < z.len() - s.len() implies #[trigger] z[i] == '0' by {
            if i == z.len() - t.len() {
                assert(z[i] == u[0]);
            }
        }
    } else {
        assert(z.skip(0) =~= z);
    }
}

/// Each byte has two hexadecimal digits, the higher one first, in the order of the bytes.
pub proof fn law_hex(bytes: Seq<u8>, b: u8)
    ensures
        hex(Seq::empty()) == Seq::<char>::empty(),
        hex(bytes.push(b)) == hex(bytes) + seq![digit((b / 16) as nat), digit((b % 16) as nat)],
{
    let all = bytes.push(b);
    assert(all.drop_last() =~= bytes);
    assert(hex(all) =~= hex(bytes) + seq![digit((b / 16) as nat), digit((b % 16) as nat)]);
}

}

//! Decimal and binary renderings of node ids, and the trace texts
//! that messages carry.

use vstd::prelude::*;

verus! {

/// The texts of a sequence of strings.
pub open spec fn texts(v: Seq<String>) -> Seq<Seq<char>> {
    v.map_values(|s: String| s@)
}

/// The character of a decimal digit `d < 10`.
pub open spec fn digit_char(d: nat) -> char {
    if d == 0 { '0' }
    else if d == 1 { '1' }
    else if d == 2 { '2' }
    else if d == 3 { '3' }
    else if d == 4 { '4' }
    else if d == 5 { '5' }
    else if d == 6 { '6' }
    else if d == 7 { '7' }
    else if d == 8 { '8' }
    else { '9' }
}

/// The decimal rendering of `n`, without leading zeros (`"0"` for zero).
pub open spec fn decimal(n: nat) -> Seq<char>
    decreases n,
{
    if n < 10 {
        seq![digit_char(n)]
    } else {
        decimal(n / 10) + seq![digit_char(n % 10)]
    }
}

fn digit_str(d: u64) -> (s: &'static str)
    requires
        d < 10,
    ensures
        s@ == seq![digit_char(d as nat)],
{
    if d == 0 {
        proof { reveal_strlit("0"); }
        "0"
    } else if d == 1 {
        proof { reveal_strlit("1"); }
        "1"
    } else if d == 2 {
        proof { reveal_strlit("2"); }
        "2"
    } else if d == 3 {
        proof { reveal_strlit("3"); }
        "3"
    } else if d == 4 {
        proof { reveal_strlit("4"); }
        "4"
    } else if d == 5 {
        proof { reveal_strlit("5"); }
        "5"
    } else if d == 6 {
        proof { reveal_strlit("6"); }
        "6"
    } else if d == 7 {
        proof { reveal_strlit("7"); }
        "7"
    } else if d == 8 {
        proof { reveal_strlit("8"); }
        "8"
    } else {
        proof { reveal_strlit("9"); }
        "9"
    }
}

/// Appends the decimal rendering of `n` to `s`.
pub fn push_decimal(s: &mut String, n: u64)
    ensures
        final(s)@ == old(s)@ + decimal(n as nat),
    decreases n,
{
    if n >= 10 {
        push_decimal(s, n / 10);
    }
    let d = digit_str(n % 10);
    s.append(d);
    proof {
        if n < 10 {
            assert(n % 10 == n);
        }
    }
}

/// The binary rendering of `n`, without leading zeros (`"0"` for zero).
pub open spec fn binary(n: nat) -> Seq<char>
    decreases n,
{
    if n < 2 {
        seq![digit_char(n)]
    } else {
        binary(n / 2) + seq![digit_char(n % 2)]
    }
}

/// `s` with `'0'`s in front up to `width` characters.
pub open spec fn zero_padded(s: Seq<char>, width: nat) -> Seq<char> {
    if s.len() < width {
        Seq::new((width - s.len()) as nat, |i: int| '0') + s
    } else {
        s
    }
}

/// The decimal rendering of `n` preceded by `"Hello World"`: the message each
/// node contributes to the ring all-to-all broadcast.
pub open spec fn greeting_text(n: nat) -> Seq<char> {
    "Hello World"@ + decimal(n)
}

/// Appends the binary rendering of `n` to `s`.
pub fn push_binary(s: &mut String, n: u64)
    ensures
        final(s)@ == old(s)@ + binary(n as nat),
    decreases n,
{
    if n >= 2 {
        push_binary(s, n / 2);
    }
    let d = digit_str(n % 2);
    s.append(d);
    proof {
        if n < 2 {
            assert(n % 2 == n);
        }
    }
}

/// `id` in binary, padded with `'0'` to at least three characters
/// (formatting with `{:3b}`, then reading every character other than `'1'`
/// as `'0'`).
pub fn id_to_bits(id: u8) -> (bits: String)
    ensures
        bits@ == zero_padded(binary(id as nat), 3),
{
    let mut digits = String::new();
    push_binary(&mut digits, id as u64);
    let len = digits.as_str().unicode_len();
    let mut bits = String::new();
    let mut pad = len;
    while pad < 3
        invariant
            len == binary(id as nat).len(),
            len <= pad <= 3 || (len > 3 && pad == len),
            bits@ == Seq::new((pad - len) as nat, |i: int| '0'),
        decreases 3 - pad,
    {
        bits.append("0");
        proof {
            reveal_strlit("0");
        }
        pad = pad + 1;
        assert(bits@ =~= Seq::new((pad - len) as nat, |i: int| '0'));
    }
    bits.append(digits.as_str());
    assert(bits@ =~= zero_padded(binary(id as nat), 3));
    bits
}

/// The message that node `id` contributes to the ring all-to-all
/// broadcast: `"Hello World"` followed by `id` in decimal.
pub fn greeting(id: usize) -> (msg: String)
    ensures
        msg@ == greeting_text(id as nat),
{
    let mut msg = String::from_str("Hello World");
    push_decimal(&mut msg, id as u64);
    msg
}

/// The value of a digit character (`'0'` is 0, `'9'` is 9).
pub open spec fn digit_value(c: char) -> int {
    c as int - '0' as int
}

/// `s` is made of the digits below `base`.
pub open spec fn all_digits(s: Seq<char>, base: int) -> bool {
    forall|j: int| 0 <= j < s.len() ==> 0 <= #[trigger] digit_value(s[j]) < base
}

/// The number that the digits `s` denote in `base`, most significant first:
/// the sum of `digit_value(s[j]) * base^(len - 1 - j)`.
pub open spec fn read_number(s: Seq<char>, base: int) -> int
    decreases s.len(),
{
    if s.len() == 0 {
        0
    } else {
        read_number(s.drop_last(), base) * base + digit_value(s.last())
    }
}

proof fn lemma_digit_char(d: nat)
    requires
        d < 10,
    ensures
        digit_value(digit_char(d)) == d,
{
}

/// The decimal rendering of `n` reads back as `n`: it is made of decimal
/// digits, they denote `n`, and it starts with `'0'` only for zero itself.
pub proof fn law_decimal_reads_back(n: nat)
    ensures
        decimal(n).len() >= 1,
        all_digits(decimal(n), 10),
        read_number(decimal(n), 10) == n,
        decimal(n)[0] == '0' ==> n == 0,
    decreases n,
{
    if n < 10 {
        lemma_digit_char(n);
        let s = decimal(n);
        assert(s.drop_last() =~= Seq::<char>::empty());
        assert(read_number(s, 10) == read_number(s.drop_last(), 10) * 10 + digit_value(s.last()));
    } else {
        law_decimal_reads_back(n / 10);
        lemma_digit_char(n % 10);
        let s = decimal(n);
        assert(s.drop_last() =~= decimal(n / 10));
        assert(s[0] == decimal(n / 10)[0]);
        assert forall|j: int| 0 <= j < s.len() implies 0 <= #[trigger] digit_value(s[j]) < 10 by {
            if j < s.len() - 1 {
                assert(s[j] == decimal(n / 10)[j]);
            }
        }
        assert(read_number(s, 10) == read_number(s.drop_last(), 10) * 10 + digit_value(s.last()));
        assert(s.last() == digit_char(n % 10));
        assert((n / 10) * 10 + n % 10 == n) by (nonlinear_arith);
    }
}

/// The binary rendering of `n` reads back as `n`: it is made of binary
/// digits, they denote `n`, and it starts with `'0'` only for zero itself.
pub proof fn law_binary_reads_back(n: nat)
    ensures
        binary(n).len() >= 1,
        all_digits(binary(n), 2),
        read_number(binary(n), 2) == n,
        binary(n)[0] == '0' ==> n == 0,
    decreases n,
{
    if n < 2 {
        lemma_digit_char(n);
        let s = binary(n);
        assert(s.drop_last() =~= Seq::<char>::empty());
        assert(read_number(s, 2) == read_number(s.drop_last(), 2) * 2 + digit_value(s.last()));
    } else {
        law_binary_reads_back(n / 2);
        lemma_digit_char(n % 2);
        let s = binary(n);
        assert(s.drop_last() =~= binary(n / 2));
        assert(s[0] == binary(n / 2)[0]);
        assert forall|j: int| 0 <= j < s.len() implies 0 <= #[trigger] digit_value(s[j]) < 2 by {
            if j < s.len() - 1 {
                assert(s[j] == binary(n / 2)[j]);
            }
        }
        assert(read_number(s, 2) == read_number(s.drop_last(), 2) * 2 + digit_value(s.last()));
        assert(s.last() == digit_char(n % 2));
        assert((n / 2) * 2 + n % 2 == n) by (nonlinear_arith);
    }
}

proof fn lemma_read_zeros_prefix(z: nat, s: Seq<char>, base: int)
    ensures
        read_number(Seq::new(z, |i: int| '0') + s, base) == read_number(s, base),
    decreases s.len(), z,
{
    let zs = Seq::new(z, |i: int| '0');
    if s.len() == 0 {
        assert(zs + s =~= zs);
        if z > 0 {
            assert(zs.drop_last() =~= Seq::new((z - 1) as nat, |i: int| '0'));
            lemma_read_zeros_prefix((z - 1) as nat, s, base);
            assert(Seq::new((z - 1) as nat, |i: int| '0') + s =~= Seq::new(
                (z - 1) as nat,
                |i: int| '0',
            ));
        }
    } else {
        assert((zs + s).drop_last() =~= zs + s.drop_last());
        lemma_read_zeros_prefix(z, s.drop_last(), base);
    }
}

/// `id_to_bits` gives at least three binary digits, and they read back as
/// the id: the padding adds only leading zeros.
pub proof fn law_id_bits_read_back(id: u8)
    ensures
        zero_padded(binary(id as nat), 3).len() >= 3,
        zero_padded(binary(id as nat), 3).len() == if binary(id as nat).len() < 3 {
            3
        } else {
            binary(id as nat).len()
        },
        all_digits(zero_padded(binary(id as nat), 3), 2),
        read_number(zero_padded(binary(id as nat), 3), 2) == id,
{
    let b = binary(id as nat);
    law_binary_reads_back(id as nat);
    if b.len() < 3 {
        let z = (3 - b.len()) as nat;
        lemma_read_zeros_prefix(z, b, 2);
        let padded = zero_padded(b, 3);
        assert forall|j: int| 0 <= j < padded.len() implies 0 <= #[trigger] digit_value(padded[j])
            < 2 by {
            if j >= z {
                assert(padded[j] == b[j - z]);
            }
        }
    }
}

} // verus!

//! The wire syntax of SCPI program data, as specification functions over
//! mathematical sequences, together with the verified helpers that emit
//! decimal digit runs.

use vstd::prelude::*;

verus! {

/// True of the characters that may stand in discrete-mnemonic and string
/// program data: printable 7-bit ASCII, or one of the ASCII whitespace
/// control characters (tab, line feed, form feed, carriage return).
pub open spec fn is_wire_char(c: char) -> bool {
    (32 <= c as int && c as int <= 126) || c as int == 9 || c as int == 10 || c as int == 12
        || c as int == 13
}

/// Every character of the sequence may stand on the wire.
pub open spec fn all_wire_chars(s: Seq<char>) -> bool {
    forall|i: int| 0 <= i < s.len() ==> is_wire_char(#[trigger] s[i])
}

/// The ASCII bytes of a character sequence, one byte per character.
pub open spec fn ascii_bytes(s: Seq<char>) -> Seq<u8> {
    Seq::new(s.len(), |i: int| s[i] as u8)
}

/// How one character of string program data appears on the wire: a double
/// quote is escaped by doubling, every other character stands as its byte.
pub open spec fn esc_char(c: char) -> Seq<u8> {
    if c == '"' {
        seq![34u8, 34u8]
    } else {
        seq![c as u8]
    }
}

/// The escaped interior of string program data.
pub open spec fn quote_escaped(s: Seq<char>) -> Seq<u8>
    decreases s.len(),
{
    if s.len() == 0 {
        Seq::<u8>::empty()
    } else {
        quote_escaped(s.drop_last()) + esc_char(s.last())
    }
}

/// Full string program data: the escaped interior between double quotes.
pub open spec fn quoted_wire(s: Seq<char>) -> Seq<u8> {
    seq![34u8] + quote_escaped(s) + seq![34u8]
}

/// The number of digits in the decimal representation of `n` (at least 1).
pub open spec fn digit_count(n: nat) -> nat
    decreases n,
{
    if n < 10 {
        1
    } else {
        1 + digit_count(n / 10)
    }
}

/// The canonical decimal representation of `n` as ASCII digit bytes:
/// no leading zeros, no sign, no grouping.
pub open spec fn dec_digits(n: nat) -> Seq<u8>
    decreases n,
{
    if n < 10 {
        seq![(48 + n) as u8]
    } else {
        dec_digits(n / 10) + seq![(48 + n % 10) as u8]
    }
}

/// The value of a run of ASCII digit bytes read as a decimal number.
pub open spec fn dec_value(ds: Seq<u8>) -> nat
    decreases ds.len(),
{
    if ds.len() == 0 {
        0
    } else {
        dec_value(ds.drop_last()) * 10 + (if ds.last() >= 48 {
            (ds.last() - 48) as nat
        } else {
            0
        })
    }
}

/// The canonical decimal representation of a signed value: an optional
/// leading minus sign, then the digits of the magnitude.
pub open spec fn int_wire(v: int) -> Seq<u8> {
    if v < 0 {
        seq![45u8] + dec_digits((-v) as nat)
    } else {
        dec_digits(v as nat)
    }
}

/// Block program data: `#`, one digit giving the width of the length field,
/// the byte length in decimal, then the raw bytes.
pub open spec fn block_wire(b: Seq<u8>) -> Seq<u8> {
    seq![35u8, (48 + digit_count(b.len())) as u8] + dec_digits(b.len()) + b
}

/// The largest byte length whose decimal representation fits the one-digit
/// width field of block program data.
pub open spec fn block_max_len() -> nat {
    999_999_999
}

pub proof fn lemma_dec_digits_len(n: nat)
    ensures
        dec_digits(n).len() == digit_count(n),
    decreases n,
{
    if n >= 10 {
        lemma_dec_digits_len(n / 10);
    }
}

/// Every byte of `dec_digits(n)` is an ASCII digit.
pub proof fn lemma_dec_digits_are_digits(n: nat)
    ensures
        forall|i: int|
            0 <= i < dec_digits(n).len() ==> 48 <= #[trigger] dec_digits(n)[i] <= 57,
    decreases n,
{
    if n < 10 {
        assert(dec_digits(n) =~= seq![(48 + n) as u8]);
    } else {
        lemma_dec_digits_are_digits(n / 10);
        assert forall|i: int|
            0 <= i < dec_digits(n).len() implies 48 <= #[trigger] dec_digits(n)[i] <= 57 by {
            if i < dec_digits(n / 10).len() {
                assert(dec_digits(n)[i] == dec_digits(n / 10)[i]);
            } else {
                assert(dec_digits(n)[i] == (48 + n % 10) as u8);
            }
        }
    }
}

/// The decimal representation never starts with a zero digit unless it is
/// the single digit `0` itself.
pub proof fn lemma_dec_digits_no_leading_zero(n: nat)
    requires
        n > 0,
    ensures
        dec_digits(n).first() != 48,
    decreases n,
{
    if n >= 10 {
        lemma_dec_digits_no_leading_zero(n / 10);
        assert(dec_digits(n).first() == dec_digits(n / 10).first());
    }
}

/// Reading the decimal representation back as a number gives the number.
pub proof fn lemma_dec_value_of_digits(n: nat)
    ensures
        dec_value(dec_digits(n)) == n,
    decreases n,
{
    if n < 10 {
        let ds = dec_digits(n);
        assert(ds =~= seq![(48 + n) as u8]);
        assert(ds.last() == (48 + n) as u8);
        assert(ds.drop_last() =~= Seq::<u8>::empty());
        assert(dec_value(ds.drop_last()) == 0);
        assert(dec_value(ds) == ((48 + n) as u8 - 48) as nat);
    } else {
        lemma_dec_value_of_digits(n / 10);
        let ds = dec_digits(n);
        assert(ds == dec_digits(n / 10) + seq![(48 + n % 10) as u8]);
        assert(ds.len() == dec_digits(n / 10).len() + 1);
        assert(ds.last() == (48 + n % 10) as u8);
        assert(ds.drop_last() =~= dec_digits(n / 10));
        assert(dec_value(ds) == dec_value(dec_digits(n / 10)) * 10 + (((48 + n % 10) as u8
            - 48) as nat));
        assert(dec_value(ds) == (n / 10) * 10 + n % 10);
    }
}

/// Ten to the power `k`.
pub open spec fn pow10(k: nat) -> nat
    decreases k,
{
    if k == 0 {
        1
    } else {
        10 * pow10((k - 1) as nat)
    }
}

/// A number below `10^k` has at most `k` decimal digits.
pub proof fn lemma_digit_count_bound(n: nat, k: nat)
    requires
        k >= 1,
        n < pow10(k),
    ensures
        digit_count(n) <= k,
    decreases n,
{
    if n >= 10 {
        assert(pow10(k) == 10 * pow10((k - 1) as nat));
        assert(n / 10 < pow10((k - 1) as nat)) by (nonlinear_arith)
            requires
                n < 10 * pow10((k - 1) as nat),
        ;
        lemma_digit_count_bound(n / 10, (k - 1) as nat);
    }
}

/// A block length within `block_max_len` fits the one-digit width field.
pub proof fn lemma_block_digit_count(len: nat)
    requires
        len <= block_max_len(),
    ensures
        digit_count(len) <= 9,
{
    reveal_with_fuel(pow10, 10);
    lemma_digit_count_bound(len, 9);
}

/// How many times the byte `b` occurs in `t`.
pub open spec fn count_byte(t: Seq<u8>, b: u8) -> nat
    decreases t.len(),
{
    if t.len() == 0 {
        0
    } else {
        count_byte(t.drop_last(), b) + (if t.last() == b {
            1nat
        } else {
            0nat
        })
    }
}

/// How many times the character `c` occurs in `s`.
pub open spec fn count_char(s: Seq<char>, c: char) -> nat
    decreases s.len(),
{
    if s.len() == 0 {
        0
    } else {
        count_char(s.drop_last(), c) + (if s.last() == c {
            1nat
        } else {
            0nat
        })
    }
}

/// Every double-quote byte in the run belongs to an adjacent doubled pair,
/// so a reader scanning for a closing quote never stops inside the run.
pub open spec fn quotes_doubled(t: Seq<u8>) -> bool
    decreases t.len(),
{
    if t.len() == 0 {
        true
    } else if t[0] == 34 {
        t.len() >= 2 && t[1] == 34 && quotes_doubled(t.skip(2))
    } else {
        quotes_doubled(t.skip(1))
    }
}

/// ASCII digit bytes for a sequence of digit values.
pub open spec fn digit_bytes(ds: Seq<u8>) -> Seq<u8> {
    Seq::new(ds.len(), |i: int| (48 + ds[i]) as u8)
}

/// A prefix of a prefix is a prefix.
pub proof fn lemma_prefix_trans(a: Seq<u8>, b: Seq<u8>, c: Seq<u8>)
    requires
        a.is_prefix_of(b),
        b.is_prefix_of(c),
    ensures
        a.is_prefix_of(c),
{
    assert(a =~= c.subrange(0, a.len() as int));
}

/// A sequence is a prefix of anything it is extended to.
pub proof fn lemma_append_is_prefix(a: Seq<u8>, x: Seq<u8>)
    ensures
        a.is_prefix_of(a + x),
{
    assert(a =~= (a + x).subrange(0, a.len() as int));
}

/// The empty sequence is a prefix of everything.
pub proof fn lemma_empty_is_prefix(t: Seq<u8>)
    ensures
        Seq::<u8>::empty().is_prefix_of(t),
{
    assert(Seq::<u8>::empty() =~= t.subrange(0, 0));
}

/// A prefix stays one when the whole is extended on the right.
pub proof fn lemma_prefix_extend(x: Seq<u8>, p: Seq<u8>, q: Seq<u8>)
    requires
        x.is_prefix_of(p),
    ensures
        x.is_prefix_of(p + q),
{
    assert(x =~= (p + q).subrange(0, x.len() as int));
}

/// Appending a prefix of `y` to `p` yields a prefix of `p + y`.
pub proof fn lemma_prefix_cat(p: Seq<u8>, x: Seq<u8>, y: Seq<u8>)
    requires
        x.is_prefix_of(y),
    ensures
        (p + x).is_prefix_of(p + y),
{
    assert(p + x =~= (p + y).subrange(0, (p + x).len() as int));
}

/// The escaped interior of a longer string extends that of any shorter
/// front of it: escaping is prefix-monotone.
pub proof fn lemma_quote_escaped_prefix(s: Seq<char>, i: int)
    requires
        0 <= i <= s.len(),
    ensures
        quote_escaped(s.subrange(0, i)).is_prefix_of(quote_escaped(s)),
    decreases s.len(),
{
    if i == s.len() {
        assert(s.subrange(0, i) =~= s);
        assert(quote_escaped(s) =~= quote_escaped(s).subrange(
            0,
            quote_escaped(s).len() as int,
        ));
    } else {
        assert(s.drop_last().subrange(0, i) =~= s.subrange(0, i));
        lemma_quote_escaped_prefix(s.drop_last(), i);
        lemma_prefix_extend(
            quote_escaped(s.subrange(0, i)),
            quote_escaped(s.drop_last()),
            esc_char(s.last()),
        );
    }
}

/// Appends the canonical decimal representation of `n` to `w`.
pub fn push_dec(w: &mut Vec<u8>, n: u128)
    ensures
        final(w)@ == old(w)@ + dec_digits(n as nat),
    decreases n,
{
    if n < 10 {
        w.push(48 + n as u8);
        assert(w@ =~= old(w)@ + dec_digits(n as nat));
    } else {
        push_dec(w, n / 10);
        w.push(48 + (n % 10) as u8);
        assert(w@ =~= old(w)@ + dec_digits(n as nat));
    }
}

/// The number of decimal digits of `n`, as executable code.
pub fn dec_digit_count(n: u128) -> (r: u32)
    ensures
        r == digit_count(n as nat),
        1 <= r <= 39,
    decreases n,
{
    if n < 10 {
        1
    } else {
        proof {
            reveal_with_fuel(pow10, 40);
            lemma_digit_count_bound(n as nat, 39);
        }
        1 + dec_digit_count(n / 10)
    }
}

} // verus!

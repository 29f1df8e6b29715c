//! The properties the encoders guarantee, stated and proved over the wire
//! specification functions that the encoding contracts use.

use vstd::prelude::*;

use crate::numeric::FiniteFloat;
use crate::param::Parameter;
use crate::wire::all_wire_chars;
use crate::wire::block_max_len;
use crate::wire::block_wire;
use crate::wire::count_byte;
use crate::wire::count_char;
use crate::wire::dec_digits;
use crate::wire::dec_value;
use crate::wire::digit_bytes;
use crate::wire::digit_count;
use crate::wire::esc_char;
use crate::wire::is_wire_char;
use crate::wire::lemma_block_digit_count;
use crate::wire::lemma_dec_digits_are_digits;
use crate::wire::lemma_dec_digits_len;
use crate::wire::lemma_dec_digits_no_leading_zero;
use crate::wire::lemma_dec_value_of_digits;
use crate::wire::quote_escaped;
use crate::wire::quoted_wire;
use crate::wire::quotes_doubled;
use crate::{Block, Discrete};

verus! {

/// Determinism: the wire bytes are a function of the value alone, so
/// encoding the same value twice produces byte-identical output.
pub proof fn lemma_encoding_deterministic<T: Parameter>(a: T, b: T)
    requires
        a == b,
    ensures
        a.wire() == b.wire(),
        a.encodable() == b.encodable(),
{
}

/// Re-encoding a freshly constructed equal value yields the same bytes:
/// for the borrowed-span kinds the wire bytes depend only on the borrowed
/// text or bytes, never on the identity of the borrow.
pub proof fn lemma_fresh_equal_value_same_bytes(
    d1: Discrete,
    d2: Discrete,
    b1: Block,
    b2: Block,
    s1: &str,
    s2: &str,
)
    requires
        d1.0@ == d2.0@,
        b1.0@ == b2.0@,
        s1@ == s2@,
    ensures
        d1.wire() == d2.wire(),
        b1.wire() == b2.wire(),
        s1.wire() == s2.wire(),
{
}

/// For every block span whose length fits the one-digit width field, the
/// emitted width byte is the ASCII digit of the decimal digit count of the
/// length, and the digit field that follows, read back as a decimal number,
/// equals the length; the raw bytes follow unchanged.
pub proof fn lemma_block_length_field(b: Seq<u8>)
    requires
        b.len() <= block_max_len(),
    ensures
        1 <= digit_count(b.len()) <= 9,
        block_wire(b).len() == 2 + digit_count(b.len()) + b.len(),
        block_wire(b)[0] == 35,
        block_wire(b)[1] == 48 + digit_count(b.len()),
        block_wire(b).subrange(2, 2 + digit_count(b.len()) as int) == dec_digits(b.len()),
        forall|i: int|
            2 <= i < 2 + digit_count(b.len()) ==> 48 <= #[trigger] block_wire(b)[i] <= 57,
        dec_value(block_wire(b).subrange(2, 2 + digit_count(b.len()) as int)) == b.len(),
        block_wire(b).skip(2 + digit_count(b.len()) as int) == b,
{
    lemma_block_digit_count(b.len());
    lemma_dec_digits_len(b.len());
    lemma_dec_value_of_digits(b.len());
    lemma_dec_digits_are_digits(b.len());
    assert(block_wire(b).subrange(2, 2 + digit_count(b.len()) as int) =~= dec_digits(b.len()));
    assert forall|i: int|
        2 <= i < 2 + digit_count(b.len()) implies 48 <= #[trigger] block_wire(b)[i] <= 57 by {
        assert(block_wire(b)[i] == dec_digits(b.len())[i - 2]);
    }
    assert(block_wire(b).skip(2 + digit_count(b.len()) as int) =~= b);
}

proof fn lemma_count_byte_concat(a: Seq<u8>, b: Seq<u8>, x: u8)
    ensures
        count_byte(a + b, x) == count_byte(a, x) + count_byte(b, x),
    decreases b.len(),
{
    if b.len() == 0 {
        assert(a + b =~= a);
    } else {
        lemma_count_byte_concat(a, b.drop_last(), x);
        assert((a + b).drop_last() =~= a + b.drop_last());
        assert((a + b).last() == b.last());
    }
}

proof fn lemma_count_byte_absent(t: Seq<u8>, x: u8)
    requires
        forall|i: int| 0 <= i < t.len() ==> #[trigger] t[i] != x,
    ensures
        count_byte(t, x) == 0,
    decreases t.len(),
{
    if t.len() > 0 {
        lemma_count_byte_absent(t.drop_last(), x);
    }
}

proof fn lemma_quotes_doubled_concat(a: Seq<u8>, b: Seq<u8>)
    requires
        quotes_doubled(a),
        quotes_doubled(b),
    ensures
        quotes_doubled(a + b),
    decreases a.len(),
{
    if a.len() == 0 {
        assert(a + b =~= b);
    } else if a[0] == 34 {
        assert((a + b).skip(2) =~= a.skip(2) + b);
        lemma_quotes_doubled_concat(a.skip(2), b);
    } else {
        assert((a + b).skip(1) =~= a.skip(1) + b);
        lemma_quotes_doubled_concat(a.skip(1), b);
    }
}

proof fn lemma_esc_char_shape(c: char)
    requires
        is_wire_char(c),
    ensures
        quotes_doubled(esc_char(c)),
        count_byte(esc_char(c), 34) == (if c == '"' {
            2nat
        } else {
            0nat
        }),
{
    reveal_with_fuel(quotes_doubled, 3);
    reveal_with_fuel(count_byte, 3);
    if c == '"' {
        let t = seq![34u8, 34u8];
        assert(t.skip(2) =~= Seq::<u8>::empty());
        assert(quotes_doubled(t));
        assert(t.drop_last() =~= seq![34u8]);
        assert(seq![34u8].drop_last() =~= Seq::<u8>::empty());
        assert(count_byte(t, 34) == 2);
    } else {
        let t = seq![c as u8];
        assert(c as int != 34);
        assert(t[0] != 34);
        assert(t.skip(1) =~= Seq::<u8>::empty());
        assert(quotes_doubled(t));
        assert(t.drop_last() =~= Seq::<u8>::empty());
        assert(count_byte(t, 34) == 0);
    }
}

proof fn lemma_quote_escaped_shape(s: Seq<char>)
    requires
        all_wire_chars(s),
    ensures
        quotes_doubled(quote_escaped(s)),
        count_byte(quote_escaped(s), 34) == 2 * count_char(s, '"'),
    decreases s.len(),
{
    if s.len() == 0 {
    } else {
        assert(all_wire_chars(s.drop_last())) by {
            assert(forall|i: int|
                0 <= i < s.drop_last().len() ==> #[trigger] s.drop_last()[i] == s[i]);
        }
        lemma_quote_escaped_shape(s.drop_last());
        assert(is_wire_char(s.last()));
        lemma_esc_char_shape(s.last());
        lemma_quotes_doubled_concat(quote_escaped(s.drop_last()), esc_char(s.last()));
        lemma_count_byte_concat(quote_escaped(s.drop_last()), esc_char(s.last()), 34);
    }
}

/// For every string the encoder accepts, each `"` of the input appears as
/// `""` in the output — the quote count of the interior is exactly twice
/// the input's, and every interior quote byte sits in an adjacent doubled
/// pair — and the output stays correctly quote-delimited: one opening and
/// one closing `"` around that interior.
pub proof fn lemma_string_escaping(s: Seq<char>)
    requires
        all_wire_chars(s),
    ensures
        quoted_wire(s).len() >= 2,
        quoted_wire(s).first() == 34,
        quoted_wire(s).last() == 34,
        quoted_wire(s).subrange(1, quoted_wire(s).len() - 1) == quote_escaped(s),
        quotes_doubled(quote_escaped(s)),
        count_byte(quote_escaped(s), 34) == 2 * count_char(s, '"'),
        count_byte(quoted_wire(s), 34) == 2 * count_char(s, '"') + 2,
{
    lemma_quote_escaped_shape(s);
    assert(quoted_wire(s).subrange(1, quoted_wire(s).len() - 1) =~= quote_escaped(s));
    reveal_with_fuel(count_byte, 2);
    assert(seq![34u8].drop_last() =~= Seq::<u8>::empty());
    assert(count_byte(seq![34u8], 34) == 1);
    lemma_count_byte_concat(seq![34u8], quote_escaped(s), 34);
    lemma_count_byte_concat(seq![34u8] + quote_escaped(s), seq![34u8], 34);
}

/// For every well-formed finite form, the output reads as
/// `mantissa E exponent`: the bytes split at the single `E` marker into the
/// mantissa and the exponent, no `+` sign occurs anywhere, and the exponent
/// digits carry no leading zero — a zero exponent is the single digit `0`.
pub proof fn lemma_float_format(f: FiniteFloat)
    requires
        f.wf(),
    ensures
        f.wire() == f.mantissa_wire() + seq![69u8] + f.exponent_wire(),
        forall|i: int| 0 <= i < f.wire().len() ==> #[trigger] f.wire()[i] != 43,
        count_byte(f.wire(), 69) == 1,
        f.exponent_wire() == (if f.exp_negative {
            seq![45u8]
        } else {
            Seq::<u8>::empty()
        }) + dec_digits(f.exponent as nat),
        f.exponent > 0 ==> dec_digits(f.exponent as nat).first() != 48,
        f.exponent == 0 ==> dec_digits(f.exponent as nat) == seq![48u8],
{
    let sign = if f.negative {
        seq![45u8]
    } else {
        Seq::<u8>::empty()
    };
    let mant = seq![(48 + f.integer_digit) as u8];
    let frac = if f.fraction@.len() > 0 {
        seq![46u8] + digit_bytes(f.fraction@)
    } else {
        Seq::<u8>::empty()
    };
    let esign = if f.exp_negative {
        seq![45u8]
    } else {
        Seq::<u8>::empty()
    };
    let edig = dec_digits(f.exponent as nat);
    assert(f.wire() =~= sign + mant + frac + seq![69u8] + esign + edig);
    assert(f.exponent == 0 ==> dec_digits(f.exponent as nat) =~= seq![48u8]);
    lemma_dec_digits_are_digits(f.exponent as nat);
    assert forall|i: int| 0 <= i < f.wire().len() implies #[trigger] f.wire()[i] != 43 by {
        let t = f.wire();
        assert(t[i] == (sign + mant + frac + seq![69u8] + esign + edig)[i]);
        if i < sign.len() {
            assert(t[i] == 45);
        } else if i < sign.len() + 1 {
            assert(t[i] == 48 + f.integer_digit);
        } else if i < sign.len() + 1 + frac.len() {
            let j = i - sign.len() - 1;
            if j == 0 {
                assert(frac[0] == 46);
            } else {
                assert(frac[j] == (48 + f.fraction@[j - 1]) as u8);
            }
        } else if i < sign.len() + 1 + frac.len() + 1 {
            assert(t[i] == 69);
        } else if i < sign.len() + 1 + frac.len() + 1 + esign.len() {
            assert(t[i] == 45);
        } else {
            let j = i - sign.len() - 1 - frac.len() - 1 - esign.len();
            assert(48 <= edig[j] <= 57);
        }
    }
    assert(count_byte(f.wire(), 69) == 1) by {
        reveal_with_fuel(count_byte, 2);
        lemma_count_byte_absent(sign, 69);
        assert(forall|i: int| 0 <= i < mant.len() ==> #[trigger] mant[i] != 69);
        lemma_count_byte_absent(mant, 69);
        assert(forall|i: int|
            0 <= i < frac.len() ==> #[trigger] frac[i] == (if i == 0 {
                46u8
            } else {
                (48 + f.fraction@[i - 1]) as u8
            }));
        lemma_count_byte_absent(frac, 69);
        lemma_count_byte_absent(esign, 69);
        lemma_count_byte_absent(edig, 69);
        assert(seq![69u8].drop_last() =~= Seq::<u8>::empty());
        assert(count_byte(seq![69u8], 69) == 1);
        lemma_count_byte_concat(sign, mant, 69);
        lemma_count_byte_concat(sign + mant, frac, 69);
        lemma_count_byte_concat(sign + mant + frac, seq![69u8], 69);
        lemma_count_byte_concat(sign + mant + frac + seq![69u8], esign, 69);
        lemma_count_byte_concat(sign + mant + frac + seq![69u8] + esign, edig, 69);
    }
    if f.exponent > 0 {
        lemma_dec_digits_no_leading_zero(f.exponent as nat);
    }
}

} // verus!

//! The capability that every encodable value implements: write the value's
//! SCPI wire representation into a caller-supplied byte buffer.

use vstd::prelude::*;

use crate::numeric::ScpiFloat;
use crate::wire::all_wire_chars;
use crate::wire::ascii_bytes;
use crate::wire::block_max_len;
use crate::wire::block_wire;
use crate::wire::dec_digit_count;
use crate::wire::dec_digits;
use crate::wire::digit_count;
use crate::wire::esc_char;
use crate::wire::int_wire;
use crate::wire::is_wire_char;
use crate::wire::lemma_append_is_prefix;
use crate::wire::lemma_block_digit_count;
use crate::wire::lemma_empty_is_prefix;
use crate::wire::lemma_prefix_cat;
use crate::wire::lemma_prefix_extend;
use crate::wire::lemma_prefix_trans;
use crate::wire::lemma_quote_escaped_prefix;
use crate::wire::push_dec;
use crate::wire::quote_escaped;
use crate::wire::quoted_wire;
use crate::{Block, DefaultValue, Discrete, EncodeError, Limit, ScpiDisplay, Step};

verus! {

/// Trait for types that can be used as SCPI command/query parameters.
///
/// `wire` is the byte sequence the value stands for on the wire, `encodable`
/// says on exactly which values encoding succeeds, and `err_kind` names the
/// error returned when it does not. `encode` appends the wire bytes to `w`;
/// on failure the buffer may have grown by a prefix of the value's bytes,
/// which the caller must discard.
pub trait Parameter: Sized {
    /// The wire representation of this value.
    spec fn wire(self) -> Seq<u8>;

    /// Whether this value can be encoded at all.
    spec fn encodable(self) -> bool;

    /// The error reported for a value that cannot be encoded.
    spec fn err_kind(self) -> Option<EncodeError>;

    /// Appends the value's wire bytes to `w`; fails exactly on values that
    /// are not encodable, and then has appended only a (possibly empty)
    /// prefix of the value's wire bytes, which the caller must discard.
    fn encode(self, w: &mut Vec<u8>) -> (r: Result<(), EncodeError>)
        ensures
            r is Ok <==> self.encodable(),
            r is Ok ==> final(w)@ == old(w)@ + self.wire(),
            r matches Err(e) ==> self.err_kind() == Some(e),
            old(w)@.is_prefix_of(final(w)@),
            r is Err ==> final(w)@.skip(old(w)@.len() as int).is_prefix_of(self.wire()),
    ;
}

/// Whether the character may stand in mnemonic or string program data.
fn wire_char_ok(c: char) -> (r: bool)
    ensures
        r == is_wire_char(c),
{
    let u = c as u32;
    (32 <= u && u <= 126) || u == 9 || u == 10 || u == 12 || u == 13
}

impl Parameter for Discrete {
    /// The mnemonic's bytes, verbatim, with no delimiters.
    open spec fn wire(self) -> Seq<u8> {
        ascii_bytes(self.0@)
    }

    open spec fn encodable(self) -> bool {
        all_wire_chars(self.0@)
    }

    open spec fn err_kind(self) -> Option<EncodeError> {
        if all_wire_chars(self.0@) {
            None
        } else {
            Some(EncodeError::InvalidMnemonic)
        }
    }

    fn encode(self, w: &mut Vec<u8>) -> (r: Result<(), EncodeError>) {
        let s = self.0;
        let n = s.unicode_len();
        let mut i: usize = 0;
        while i < n
            invariant
                s@ == self.0@,
                n == s@.len(),
                i <= n,
                forall|j: int| 0 <= j < i ==> is_wire_char(#[trigger] s@[j]),
            decreases n - i,
        {
            let c = s.get_char(i);
            if !wire_char_ok(c) {
                proof {
                    assert(!all_wire_chars(self.0@)) by {
                        assert(!is_wire_char(self.0@[i as int]));
                    }
                    assert(old(w)@.is_prefix_of(w@)) by {
                        assert(w@.subrange(0, w@.len() as int) =~= w@);
                    }
                    assert(w@.skip(old(w)@.len() as int) =~= Seq::<u8>::empty());
                    lemma_empty_is_prefix(ascii_bytes(self.0@));
                }
                return Err(EncodeError::InvalidMnemonic);
            }
            i = i + 1;
        }
        let mut i: usize = 0;
        while i < n
            invariant
                s@ == self.0@,
                n == s@.len(),
                i <= n,
                all_wire_chars(s@),
                w@ == old(w)@ + ascii_bytes(s@).subrange(0, i as int),
            decreases n - i,
        {
            let c = s.get_char(i);
            assert(is_wire_char(s@[i as int]));
            w.push(c as u8);
            assert(ascii_bytes(s@).subrange(0, i + 1) =~= ascii_bytes(s@).subrange(0, i as int)
                + seq![s@[i as int] as u8]);
            i = i + 1;
        }
        assert(ascii_bytes(s@).subrange(0, n as int) =~= ascii_bytes(s@));
        assert(old(w)@.is_prefix_of(w@)) by {
            assert(w@.subrange(0, old(w)@.len() as int) =~= old(w)@);
        }
        Ok(())
    }
}

impl Parameter for &str {
    /// String program data: the text between double quotes, with each
    /// embedded double quote escaped by doubling.
    open spec fn wire(self) -> Seq<u8> {
        quoted_wire(self@)
    }

    open spec fn encodable(self) -> bool {
        all_wire_chars(self@)
    }

    open spec fn err_kind(self) -> Option<EncodeError> {
        if all_wire_chars(self@) {
            None
        } else {
            Some(EncodeError::InvalidStringCharacter)
        }
    }

    fn encode(self, w: &mut Vec<u8>) -> (r: Result<(), EncodeError>) {
        w.push(34);
        let n = self.unicode_len();
        let mut i: usize = 0;
        while i < n
            invariant
                n == self@.len(),
                i <= n,
                forall|j: int| 0 <= j < i ==> is_wire_char(#[trigger] self@[j]),
                w@ == old(w)@ + seq![34u8] + quote_escaped(self@.subrange(0, i as int)),
            decreases n - i,
        {
            let c = self.get_char(i);
            if c == '"' {
                w.push(34);
                w.push(34);
            } else if wire_char_ok(c) {
                w.push(c as u8);
            } else {
                proof {
                    assert(!all_wire_chars(self@)) by {
                        assert(!is_wire_char(self@[i as int]));
                    }
                    assert(old(w)@.is_prefix_of(w@)) by {
                        assert(w@.subrange(0, old(w)@.len() as int) =~= old(w)@);
                    }
                    let delta = seq![34u8] + quote_escaped(self@.subrange(0, i as int));
                    assert(w@.skip(old(w)@.len() as int) =~= delta);
                    lemma_quote_escaped_prefix(self@, i as int);
                    lemma_prefix_cat(
                        seq![34u8],
                        quote_escaped(self@.subrange(0, i as int)),
                        quote_escaped(self@),
                    );
                    lemma_prefix_extend(delta, seq![34u8] + quote_escaped(self@), seq![34u8]);
                }
                return Err(EncodeError::InvalidStringCharacter);
            }
            proof {
                let pre = self@.subrange(0, i as int);
                let ext = self@.subrange(0, i + 1);
                assert(ext.drop_last() =~= pre);
                assert(ext.last() == self@[i as int]);
                assert(quote_escaped(ext) == quote_escaped(pre) + esc_char(self@[i as int]));
                assert(w@ =~= old(w)@ + seq![34u8] + quote_escaped(ext));
            }
            i = i + 1;
        }
        w.push(34);
        proof {
            assert(self@.subrange(0, n as int) =~= self@);
            assert(w@ =~= old(w)@ + quoted_wire(self@));
            assert(old(w)@.is_prefix_of(w@)) by {
                assert(w@.subrange(0, old(w)@.len() as int) =~= old(w)@);
            }
        }
        Ok(())
    }
}

impl<'a> Parameter for Block<'a> {
    /// Block program data: `#`, the width of the length field as one digit,
    /// the byte length in decimal, then the raw bytes.
    open spec fn wire(self) -> Seq<u8> {
        block_wire(self.0@)
    }

    /// The length field is a single decimal digit, so the byte length may
    /// need at most nine digits.
    open spec fn encodable(self) -> bool {
        self.0@.len() <= block_max_len()
    }

    open spec fn err_kind(self) -> Option<EncodeError> {
        if self.0@.len() <= block_max_len() {
            None
        } else {
            Some(EncodeError::BlockTooLarge)
        }
    }

    fn encode(self, w: &mut Vec<u8>) -> (r: Result<(), EncodeError>) {
        let b = self.0;
        let n = b.len();
        if n > 999_999_999 {
            proof {
                assert(old(w)@.is_prefix_of(w@)) by {
                    assert(w@.subrange(0, w@.len() as int) =~= w@);
                }
                assert(w@.skip(old(w)@.len() as int) =~= Seq::<u8>::empty());
                lemma_empty_is_prefix(block_wire(self.0@));
            }
            return Err(EncodeError::BlockTooLarge);
        }
        proof {
            lemma_block_digit_count(n as nat);
        }
        w.push(35);
        let d = dec_digit_count(n as u128);
        w.push(48 + d as u8);
        push_dec(w, n as u128);
        let mut i: usize = 0;
        while i < n
            invariant
                b@ == self.0@,
                n == b@.len(),
                i <= n,
                w@ == old(w)@ + seq![35u8, (48 + digit_count(b@.len())) as u8] + dec_digits(
                    b@.len(),
                ) + b@.subrange(0, i as int),
            decreases n - i,
        {
            let byte = b[i];
            w.push(byte);
            assert(b@.subrange(0, i + 1) =~= b@.subrange(0, i as int) + seq![b@[i as int]]);
            i = i + 1;
        }
        proof {
            assert(b@.subrange(0, n as int) =~= b@);
            assert(w@ =~= old(w)@ + block_wire(b@));
            assert(old(w)@.is_prefix_of(w@)) by {
                assert(w@.subrange(0, old(w)@.len() as int) =~= old(w)@);
            }
        }
        Ok(())
    }
}

impl Parameter for bool {
    /// Boolean program data: `1` for true, `0` for false.
    ///
    /// Reference: SCPI 1999.0: 7.3 - Boolean Program Data
    open spec fn wire(self) -> Seq<u8> {
        if self {
            seq![49u8]
        } else {
            seq![48u8]
        }
    }

    open spec fn encodable(self) -> bool {
        true
    }

    open spec fn err_kind(self) -> Option<EncodeError> {
        None
    }

    fn encode(self, w: &mut Vec<u8>) -> (r: Result<(), EncodeError>) {
        w.push(if self {
            49
        } else {
            48
        });
        proof {
            assert(w@ =~= old(w)@ + self.wire());
            assert(old(w)@.is_prefix_of(w@)) by {
                assert(w@.subrange(0, old(w)@.len() as int) =~= old(w)@);
            }
        }
        Ok(())
    }
}

impl Parameter for DefaultValue {
    /// The `DEF` sentinel.
    open spec fn wire(self) -> Seq<u8> {
        seq![68u8, 69u8, 70u8]
    }

    open spec fn encodable(self) -> bool {
        true
    }

    open spec fn err_kind(self) -> Option<EncodeError> {
        None
    }

    fn encode(self, w: &mut Vec<u8>) -> (r: Result<(), EncodeError>) {
        w.push(68);
        w.push(69);
        w.push(70);
        proof {
            assert(w@ =~= old(w)@ + self.wire());
            assert(old(w)@.is_prefix_of(w@)) by {
                assert(w@.subrange(0, old(w)@.len() as int) =~= old(w)@);
            }
        }
        Ok(())
    }
}

impl Parameter for Limit {
    /// The `MIN` / `MAX` sentinels.
    open spec fn wire(self) -> Seq<u8> {
        match self {
            Limit::Min => seq![77u8, 73u8, 78u8],
            Limit::Max => seq![77u8, 65u8, 88u8],
        }
    }

    open spec fn encodable(self) -> bool {
        true
    }

    open spec fn err_kind(self) -> Option<EncodeError> {
        None
    }

    fn encode(self, w: &mut Vec<u8>) -> (r: Result<(), EncodeError>) {
        w.push(77);
        match self {
            Limit::Min => {
                w.push(73);
                w.push(78);
            },
            Limit::Max => {
                w.push(65);
                w.push(88);
            },
        }
        proof {
            assert(w@ =~= old(w)@ + self.wire());
            assert(old(w)@.is_prefix_of(w@)) by {
                assert(w@.subrange(0, old(w)@.len() as int) =~= old(w)@);
            }
        }
        Ok(())
    }
}

impl Parameter for Step {
    /// The `UP` / `DOWN` sentinels.
    open spec fn wire(self) -> Seq<u8> {
        match self {
            Step::Up => seq![85u8, 80u8],
            Step::Down => seq![68u8, 79u8, 87u8, 78u8],
        }
    }

    open spec fn encodable(self) -> bool {
        true
    }

    open spec fn err_kind(self) -> Option<EncodeError> {
        None
    }

    fn encode(self, w: &mut Vec<u8>) -> (r: Result<(), EncodeError>) {
        match self {
            Step::Up => {
                w.push(85);
                w.push(80);
            },
            Step::Down => {
                w.push(68);
                w.push(79);
                w.push(87);
                w.push(78);
            },
        }
        proof {
            assert(w@ =~= old(w)@ + self.wire());
            assert(old(w)@.is_prefix_of(w@)) by {
                assert(w@.subrange(0, old(w)@.len() as int) =~= old(w)@);
            }
        }
        Ok(())
    }
}

impl Parameter for ScpiFloat {
    /// `NAN`, `INF`, `NINF`, or the finite decimal scientific form.
    open spec fn wire(self) -> Seq<u8> {
        match self {
            ScpiFloat::NotANumber => seq![78u8, 65u8, 78u8],
            ScpiFloat::Infinity => seq![73u8, 78u8, 70u8],
            ScpiFloat::NegInfinity => seq![78u8, 73u8, 78u8, 70u8],
            ScpiFloat::Finite(f) => f.wire(),
        }
    }

    /// The special values always encode; a finite form must be well-formed
    /// and within the ±9.9 × 10³⁷ range of decimal numeric program data.
    open spec fn encodable(self) -> bool {
        match self {
            ScpiFloat::Finite(f) => f.wf() && f.in_range(),
            _ => true,
        }
    }

    open spec fn err_kind(self) -> Option<EncodeError> {
        if self.encodable() {
            None
        } else {
            Some(EncodeError::NumericOutOfRange)
        }
    }

    fn encode(self, w: &mut Vec<u8>) -> (r: Result<(), EncodeError>) {
        match self {
            ScpiFloat::NotANumber => {
                w.push(78);
                w.push(65);
                w.push(78);
            },
            ScpiFloat::Infinity => {
                w.push(73);
                w.push(78);
                w.push(70);
            },
            ScpiFloat::NegInfinity => {
                w.push(78);
                w.push(73);
                w.push(78);
                w.push(70);
            },
            ScpiFloat::Finite(f) => {
                if !f.check() {
                    proof {
                        assert(old(w)@.is_prefix_of(w@)) by {
                            assert(w@.subrange(0, w@.len() as int) =~= w@);
                        }
                        assert(w@.skip(old(w)@.len() as int) =~= Seq::<u8>::empty());
                        lemma_empty_is_prefix(f.wire());
                    }
                    return Err(EncodeError::NumericOutOfRange);
                }
                f.emit(w);
            },
        }
        proof {
            assert(w@ =~= old(w)@ + self.wire());
            lemma_append_is_prefix(old(w)@, self.wire());
        }
        Ok(())
    }
}

impl<T: ScpiDisplay> Parameter for T {
    /// Canonical decimal: an optional minus sign, then the magnitude's
    /// digits with no leading zeros.
    open spec fn wire(self) -> Seq<u8> {
        int_wire(self.scpi_value())
    }

    open spec fn encodable(self) -> bool {
        true
    }

    open spec fn err_kind(self) -> Option<EncodeError> {
        None
    }

    fn encode(self, w: &mut Vec<u8>) -> (r: Result<(), EncodeError>) {
        if self.scpi_negative() {
            w.push(45);
        }
        let m = self.scpi_magnitude();
        push_dec(w, m);
        proof {
            assert(w@ =~= old(w)@ + int_wire(self.scpi_value()));
            lemma_append_is_prefix(old(w)@, int_wire(self.scpi_value()));
        }
        Ok(())
    }
}

impl Parameter for () {
    /// The empty composite writes nothing.
    open spec fn wire(self) -> Seq<u8> {
        Seq::<u8>::empty()
    }

    open spec fn encodable(self) -> bool {
        true
    }

    open spec fn err_kind(self) -> Option<EncodeError> {
        None
    }

    fn encode(self, w: &mut Vec<u8>) -> (r: Result<(), EncodeError>) {
        proof {
            assert(w@ =~= old(w)@ + Seq::<u8>::empty());
            lemma_append_is_prefix(old(w)@, Seq::<u8>::empty());
        }
        Ok(())
    }
}

impl<A: Parameter, B: Parameter> Parameter for (A, B) {
    /// The elements' wire bytes in order, joined by a single comma, with no
    /// trailing separator.
    open spec fn wire(self) -> Seq<u8> {
        self.0.wire() + seq![44u8] + self.1.wire()
    }

    open spec fn encodable(self) -> bool {
        self.0.encodable() && self.1.encodable()
    }

    open spec fn err_kind(self) -> Option<EncodeError> {
        if !self.0.encodable() {
            self.0.err_kind()
        } else {
            self.1.err_kind()
        }
    }

    fn encode(self, w: &mut Vec<u8>) -> (r: Result<(), EncodeError>) {
        let (a, b) = self;
        let ghost w0 = w@;
        match a.encode(w) {
            Ok(()) => {},
            Err(e) => {
                proof {
                    lemma_prefix_extend(
                        w@.skip(w0.len() as int),
                        a.wire(),
                        seq![44u8] + b.wire(),
                    );
                    assert(a.wire() + (seq![44u8] + b.wire()) =~= self.wire());
                }
                return Err(e);
            },
        }
        w.push(44);
        proof {
            assert(w@ =~= w0 + a.wire() + seq![44u8]);
            lemma_append_is_prefix(w0 + a.wire(), seq![44u8]);
            lemma_prefix_trans(w0, w0 + a.wire(), w@);
        }
        let ghost w1 = w@;
        match b.encode(w) {
            Ok(()) => {},
            Err(e) => {
                proof {
                    lemma_prefix_trans(w0, w1, w@);
                    let delta_b = w@.skip(w1.len() as int);
                    assert(w@ =~= w1 + delta_b);
                    assert(w@.skip(w0.len() as int) =~= (a.wire() + seq![44u8]) + delta_b);
                    lemma_prefix_cat(a.wire() + seq![44u8], delta_b, b.wire());
                    assert((a.wire() + seq![44u8]) + b.wire() =~= self.wire());
                }
                return Err(e);
            },
        }
        proof {
            assert(w@ =~= w0 + (a.wire() + seq![44u8] + b.wire()));
            lemma_append_is_prefix(w0, a.wire() + seq![44u8] + b.wire());
        }
        Ok(())
    }
}

impl<A: Parameter, B: Parameter, C: Parameter> Parameter for (A, B, C) {
    /// The elements' wire bytes in order, joined by single commas.
    open spec fn wire(self) -> Seq<u8> {
        self.0.wire() + seq![44u8] + self.1.wire() + seq![44u8] + self.2.wire()
    }

    open spec fn encodable(self) -> bool {
        self.0.encodable() && self.1.encodable() && self.2.encodable()
    }

    open spec fn err_kind(self) -> Option<EncodeError> {
        if !self.0.encodable() {
            self.0.err_kind()
        } else if !self.1.encodable() {
            self.1.err_kind()
        } else {
            self.2.err_kind()
        }
    }

    fn encode(self, w: &mut Vec<u8>) -> (r: Result<(), EncodeError>) {
        let (a, b, c) = self;
        let ghost w0 = w@;
        let ghost pair_wire = (a, b).wire();
        match (a, b).encode(w) {
            Ok(()) => {},
            Err(e) => {
                proof {
                    lemma_prefix_extend(
                        w@.skip(w0.len() as int),
                        pair_wire,
                        seq![44u8] + c.wire(),
                    );
                    assert(pair_wire + (seq![44u8] + c.wire()) =~= self.wire());
                }
                return Err(e);
            },
        }
        w.push(44);
        proof {
            assert(w@ =~= w0 + pair_wire + seq![44u8]);
            lemma_append_is_prefix(w0 + pair_wire, seq![44u8]);
            lemma_prefix_trans(w0, w0 + pair_wire, w@);
        }
        let ghost w1 = w@;
        match c.encode(w) {
            Ok(()) => {},
            Err(e) => {
                proof {
                    lemma_prefix_trans(w0, w1, w@);
                    let delta_c = w@.skip(w1.len() as int);
                    assert(w@ =~= w1 + delta_c);
                    assert(w@.skip(w0.len() as int) =~= (pair_wire + seq![44u8]) + delta_c);
                    lemma_prefix_cat(pair_wire + seq![44u8], delta_c, c.wire());
                    assert((pair_wire + seq![44u8]) + c.wire() =~= self.wire());
                }
                return Err(e);
            },
        }
        proof {
            assert(w@ =~= w0 + self.wire());
            lemma_append_is_prefix(w0, self.wire());
        }
        Ok(())
    }
}

impl<A: Parameter, B: Parameter, C: Parameter, D: Parameter> Parameter for (A, B, C, D) {
    /// The elements' wire bytes in order, joined by single commas.
    open spec fn wire(self) -> Seq<u8> {
        self.0.wire() + seq![44u8] + self.1.wire() + seq![44u8] + self.2.wire() + seq![44u8]
            + self.3.wire()
    }

    open spec fn encodable(self) -> bool {
        self.0.encodable() && self.1.encodable() && self.2.encodable() && self.3.encodable()
    }

    open spec fn err_kind(self) -> Option<EncodeError> {
        if !self.0.encodable() {
            self.0.err_kind()
        } else if !self.1.encodable() {
            self.1.err_kind()
        } else if !self.2.encodable() {
            self.2.err_kind()
        } else {
            self.3.err_kind()
        }
    }

    fn encode(self, w: &mut Vec<u8>) -> (r: Result<(), EncodeError>) {
        let (a, b, c, d) = self;
        let ghost w0 = w@;
        let ghost triple_wire = (a, b, c).wire();
        match (a, b, c).encode(w) {
            Ok(()) => {},
            Err(e) => {
                proof {
                    lemma_prefix_extend(
                        w@.skip(w0.len() as int),
                        triple_wire,
                        seq![44u8] + d.wire(),
                    );
                    assert(triple_wire + (seq![44u8] + d.wire()) =~= self.wire());
                }
                return Err(e);
            },
        }
        w.push(44);
        proof {
            assert(w@ =~= w0 + triple_wire + seq![44u8]);
            lemma_append_is_prefix(w0 + triple_wire, seq![44u8]);
            lemma_prefix_trans(w0, w0 + triple_wire, w@);
        }
        let ghost w1 = w@;
        match d.encode(w) {
            Ok(()) => {},
            Err(e) => {
                proof {
                    lemma_prefix_trans(w0, w1, w@);
                    let delta_d = w@.skip(w1.len() as int);
                    assert(w@ =~= w1 + delta_d);
                    assert(w@.skip(w0.len() as int) =~= (triple_wire + seq![44u8]) + delta_d);
                    lemma_prefix_cat(triple_wire + seq![44u8], delta_d, d.wire());
                    assert((triple_wire + seq![44u8]) + d.wire() =~= self.wire());
                }
                return Err(e);
            },
        }
        proof {
            assert(w@ =~= w0 + self.wire());
            lemma_append_is_prefix(w0, self.wire());
        }
        Ok(())
    }
}

} // verus!

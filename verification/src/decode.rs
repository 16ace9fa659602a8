use vstd::prelude::*;
use vstd::string::{StrSliceExecFns, StringSliceAdditionalSpecFns};
use vstd::utf8::{decode_utf8, valid_utf8};

use crate::parse::ParseError;
use crate::text::{is_valid_utf8, utf8_to_string};

use crate::bencode::{
    clone_entries, dec_i, dec_u, dict_get, dict_insert, dict_insert_all, dict_insert_entry, dict_lookup,
    encode_items, encode_pairs,
    entries_sorted, lemma_dict_insert_all_snoc, lemma_dict_insert_all_sorted,
    lemma_dict_insert_sorted, lemma_model_entries, lemma_model_items, model, model_entries,
    model_items, spec_encode, wf, BencodeValue, Bval,
};

verus! {

/// Why a byte string failed to decode as bencode. Each variant carries the
/// input position at which the fault was found.
#[derive(PartialEq, Eq, Structural, Clone, Copy, Debug)]
pub enum DecodeError {
    /// The input ended where a value, a terminator or more payload was owed.
    UnexpectedEnd { at: usize },
    /// A byte that opens no bencode form (or a non-string dictionary key).
    UnexpectedByte { at: usize },
    /// A string length field without digits or without its `:`.
    BadLength { at: usize },
    /// A declared string length larger than the remaining input.
    LengthExceedsInput { at: usize },
    /// A malformed `i...e` integer: no digits, a leading zero, `-0`, an
    /// unterminated form, or a value outside the signed 64-bit range.
    BadInteger { at: usize },
    /// Well-formed value followed by leftover bytes.
    TrailingBytes { at: usize },
}

/// An ASCII decimal digit.
pub open spec fn is_digit(b: u8) -> bool {
    48 <= b <= 57
}

/// The end of the run of digits starting at `i`.
pub open spec fn digits_end(s: Seq<u8>, i: int) -> int
    decreases s.len() - i,
{
    if 0 <= i < s.len() && is_digit(s[i]) {
        digits_end(s, i + 1)
    } else {
        i
    }
}

/// The value of the digits in `s[i..j)`, most significant first.
pub open spec fn digits_val(s: Seq<u8>, i: int, j: int) -> nat
    decreases j - i,
{
    if i >= j {
        0
    } else {
        digits_val(s, i, j - 1) * 10 + (s[j - 1] - 48) as nat
    }
}

/// The digit run ends at or after `i`, within the input, on a non-digit.
pub proof fn lemma_digits_end_bounds(s: Seq<u8>, i: int)
    requires
        0 <= i <= s.len(),
    ensures
        i <= digits_end(s, i) <= s.len(),
        digits_end(s, i) < s.len() ==> !is_digit(s[digits_end(s, i)]),
        forall|k: int| i <= k < digits_end(s, i) ==> is_digit(#[trigger] s[k]),
    decreases s.len() - i,
{
    if 0 <= i < s.len() && is_digit(s[i]) {
        lemma_digits_end_bounds(s, i + 1);
    }
}

/// A longer digit run never has a smaller value.
pub proof fn lemma_digits_val_mono(s: Seq<u8>, i: int, m: int, j: int)
    requires
        i <= m <= j,
    ensures
        digits_val(s, i, j) >= digits_val(s, i, m),
    decreases j - m,
{
    if m < j {
        lemma_digits_val_mono(s, i, m, j - 1);
    }
}

/// One decoded value and the position just past it, or the fault.
pub open spec fn spec_decode_at(s: Seq<u8>, i: int) -> Result<(Bval, int), DecodeError>
    decreases s.len() - i, 2nat,
{
    if i < 0 || i >= s.len() {
        Err(DecodeError::UnexpectedEnd { at: if i >= 0 { i as usize } else { 0 } })
    } else if is_digit(s[i]) {
        let j = digits_end(s, i);
        let n = digits_val(s, i, j);
        if j >= s.len() || s[j] != 58 {
            Err(DecodeError::BadLength { at: j as usize })
        } else if j + 1 + n > s.len() {
            Err(DecodeError::LengthExceedsInput { at: i as usize })
        } else {
            Ok((Bval::Bytes(s.subrange(j + 1, j + 1 + n)), j + 1 + n))
        }
    } else if s[i] == 105 {
        let ds = if i + 1 < s.len() && s[i + 1] == 45 {
            i + 2
        } else {
            i + 1
        };
        let j = digits_end(s, ds);
        if ds > s.len() || j == ds {
            Err(DecodeError::BadInteger { at: i as usize })
        } else if j >= s.len() || s[j] != 101 {
            Err(DecodeError::BadInteger { at: i as usize })
        } else if s[ds] == 48 && j > ds + 1 {
            Err(DecodeError::BadInteger { at: i as usize })
        } else if ds == i + 2 && s[ds] == 48 {
            Err(DecodeError::BadInteger { at: i as usize })
        } else {
            let m = digits_val(s, ds, j);
            let val: int = if ds == i + 2 {
                -(m as int)
            } else {
                m as int
            };
            if val < i64::MIN || val > i64::MAX {
                Err(DecodeError::BadInteger { at: i as usize })
            } else {
                Ok((Bval::Int(val), j + 1))
            }
        }
    } else if s[i] == 108 {
        match spec_decode_items(s, i + 1) {
            Ok((items, j)) => Ok((Bval::List(items), j)),
            Err(e) => Err(e),
        }
    } else if s[i] == 100 {
        match spec_decode_pairs(s, i + 1) {
            Ok((ps, j)) => Ok((Bval::Dict(dict_insert_all(Seq::empty(), ps)), j)),
            Err(e) => Err(e),
        }
    } else {
        Err(DecodeError::UnexpectedByte { at: i as usize })
    }
}

/// The items of a list body up to its `e`, or the fault.
pub open spec fn spec_decode_items(s: Seq<u8>, i: int) -> Result<(Seq<Bval>, int), DecodeError>
    decreases s.len() - i, 3nat,
{
    if i < 0 || i >= s.len() {
        Err(DecodeError::UnexpectedEnd { at: if i >= 0 { i as usize } else { 0 } })
    } else if s[i] == 101 {
        Ok((Seq::<Bval>::empty(), i + 1))
    } else {
        match spec_decode_at(s, i) {
            Err(e) => Err(e),
            Ok((v, j)) => if j <= i || j > s.len() {
                Err(DecodeError::UnexpectedEnd { at: i as usize })
            } else {
                match spec_decode_items(s, j) {
                    Err(e) => Err(e),
                    Ok((rest, k)) => Ok((seq![v] + rest, k)),
                }
            },
        }
    }
}

/// The entries of a dictionary body up to its `e`, in wire order, or the
/// fault.
pub open spec fn spec_decode_pairs(s: Seq<u8>, i: int) -> Result<
    (Seq<(Seq<u8>, Bval)>, int),
    DecodeError,
>
    decreases s.len() - i, 3nat,
{
    if i < 0 || i >= s.len() {
        Err(DecodeError::UnexpectedEnd { at: if i >= 0 { i as usize } else { 0 } })
    } else if s[i] == 101 {
        Ok((Seq::<(Seq<u8>, Bval)>::empty(), i + 1))
    } else if !is_digit(s[i]) {
        Err(DecodeError::UnexpectedByte { at: i as usize })
    } else {
        let j = digits_end(s, i);
        let n = digits_val(s, i, j);
        if j >= s.len() || s[j] != 58 {
            Err(DecodeError::BadLength { at: j as usize })
        } else if j + 1 + n > s.len() || j < i {
            Err(DecodeError::LengthExceedsInput { at: i as usize })
        } else {
            let key = s.subrange(j + 1, j + 1 + n);
            match spec_decode_at(s, j + 1 + n) {
                Err(e) => Err(e),
                Ok((v, w)) => if w <= j + 1 + n || w > s.len() {
                    Err(DecodeError::UnexpectedEnd { at: i as usize })
                } else {
                    match spec_decode_pairs(s, w) {
                        Err(e) => Err(e),
                        Ok((rest, k)) => Ok((seq![(key, v)] + rest, k)),
                    }
                },
            }
        }
    }
}

/// A whole input decoded as one value with nothing left over, or the fault.
pub open spec fn spec_decode(s: Seq<u8>) -> Result<Bval, DecodeError> {
    match spec_decode_at(s, 0) {
        Err(e) => Err(e),
        Ok((v, j)) => if j == s.len() {
            Ok(v)
        } else {
            Err(DecodeError::TrailingBytes { at: j as usize })
        },
    }
}

/// The decimal digits of a number are digits, at least one, and never start
/// with a zero unless the number is a single digit.
pub proof fn lemma_dec_u_shape(n: nat)
    ensures
        dec_u(n).len() >= 1,
        forall|k: int| 0 <= k < dec_u(n).len() ==> is_digit(#[trigger] dec_u(n)[k]),
        n >= 10 ==> dec_u(n)[0] != 48,
        n < 10 ==> dec_u(n) == seq![(48 + n) as u8],
    decreases n,
{
    if n >= 10 {
        lemma_dec_u_shape(n / 10);
        assert(dec_u(n) == dec_u(n / 10) + seq![(48 + n % 10) as u8]);
        assert(dec_u(n)[0] == dec_u(n / 10)[0]);
        assert forall|k: int| 0 <= k < dec_u(n).len() implies is_digit(#[trigger] dec_u(n)[k]) by {
            if k < dec_u(n / 10).len() {
                assert(dec_u(n)[k] == dec_u(n / 10)[k]);
            } else {
                assert(dec_u(n)[k] == (48 + n % 10) as u8);
            }
        }
    }
}

/// A digit run bounded by a non-digit ends exactly at that bound.
pub proof fn lemma_digits_end_exact(s: Seq<u8>, i: int, j: int)
    requires
        0 <= i <= j <= s.len(),
        forall|k: int| i <= k < j ==> is_digit(#[trigger] s[k]),
        j < s.len() ==> !is_digit(s[j]),
    ensures
        digits_end(s, i) == j,
    decreases j - i,
{
    if i < j {
        lemma_digits_end_exact(s, i + 1, j);
    }
}

/// Parsing the embedded decimal digits of `n` yields `n`.
pub proof fn lemma_digits_val_of_dec(s: Seq<u8>, i: int, n: nat)
    requires
        0 <= i,
        i + dec_u(n).len() <= s.len(),
        s.subrange(i, i + dec_u(n).len()) == dec_u(n),
    ensures
        digits_val(s, i, i + dec_u(n).len()) == n,
    decreases n,
{
    lemma_dec_u_shape(n);
    let len = dec_u(n).len() as int;
    if n < 10 {
        assert(s[i] == s.subrange(i, i + 1)[0]);
        assert(digits_val(s, i, i + 1) == digits_val(s, i, i) * 10 + (s[i] - 48) as nat);
    } else {
        assert(dec_u(n) == dec_u(n / 10) + seq![(48 + n % 10) as u8]);
        let plen = dec_u(n / 10).len() as int;
        assert(s.subrange(i, i + plen) =~= dec_u(n / 10)) by {
            assert forall|k: int| 0 <= k < plen implies #[trigger] s.subrange(i, i + plen)[k]
                == dec_u(n / 10)[k] by {
                assert(s.subrange(i, i + len)[k] == dec_u(n)[k]);
                assert(dec_u(n)[k] == dec_u(n / 10)[k]);
                assert(s.subrange(i, i + plen)[k] == s[i + k]);
                assert(s.subrange(i, i + len)[k] == s[i + k]);
            }
        }
        lemma_digits_val_of_dec(s, i, n / 10);
        assert(s[i + len - 1] == s.subrange(i, i + len)[len - 1]);
        assert(dec_u(n)[len - 1] == (48 + n % 10) as u8);
        assert(digits_val(s, i, i + len) == digits_val(s, i, i + len - 1) * 10 + (s[i + len - 1]
            - 48) as nat);
        assert(digits_val(s, i, i + len - 1) == n / 10);
        assert((n / 10) * 10 + n % 10 == n) by (nonlinear_arith);
    }
}

/// Every encoding is nonempty and opens with the byte of its form: digits for
/// a byte string, `i`, `l` or `d` otherwise — never a terminator.
pub proof fn lemma_encode_shape(v: Bval)
    ensures
        spec_encode(v).len() >= 1,
        v is Bytes ==> is_digit(spec_encode(v)[0]),
        v is Int ==> spec_encode(v)[0] == 105,
        v is List ==> spec_encode(v)[0] == 108,
        v is Dict ==> spec_encode(v)[0] == 100,
        spec_encode(v)[0] != 101,
{
    match v {
        Bval::Bytes(b) => {
            lemma_dec_u_shape(b.len());
            assert(spec_encode(v)[0] == dec_u(b.len())[0]);
        },
        Bval::Int(x) => {
            assert(spec_encode(v)[0] == 105);
        },
        Bval::List(l) => {
            assert(spec_encode(v)[0] == 108);
        },
        Bval::Dict(d) => {
            assert(spec_encode(v)[0] == 100);
        },
    }
}

/// Decoding at the start of an embedded canonical encoding of a well-formed
/// value yields exactly that value and stops just past it.
pub proof fn lemma_decode_encode_at(v: Bval, s: Seq<u8>, i: int)
    requires
        wf(v),
        0 <= i,
        i + spec_encode(v).len() <= s.len(),
        s.subrange(i, i + spec_encode(v).len()) == spec_encode(v),
    ensures
        spec_decode_at(s, i) == Ok::<(Bval, int), DecodeError>((v, i + spec_encode(v).len())),
    decreases v,
{
    let e = spec_encode(v);
    let elen = e.len() as int;
    assert forall|k: int| 0 <= k < elen implies s[i + k] == e[k] by {
        assert(s.subrange(i, i + elen)[k] == s[i + k]);
    }
    lemma_encode_shape(v);
    assert(s[i] == e[0]);
    match v {
        Bval::Bytes(b) => {
            let du = dec_u(b.len());
            let dlen = du.len() as int;
            lemma_dec_u_shape(b.len());
            assert(e == du + seq![58u8] + b);
            assert forall|k: int| i <= k < i + dlen implies is_digit(#[trigger] s[k]) by {
                assert(s[k] == e[k - i]);
                assert(e[k - i] == du[k - i]);
            }
            assert(s[i + dlen] == e[dlen]);
            assert(e[dlen] == 58);
            lemma_digits_end_exact(s, i, i + dlen);
            assert(s.subrange(i, i + dlen) =~= du) by {
                assert forall|k: int| 0 <= k < dlen implies #[trigger] s.subrange(i, i + dlen)[k]
                    == du[k] by {
                    assert(s.subrange(i, i + dlen)[k] == s[i + k]);
                    assert(e[k] == du[k]);
                }
            }
            lemma_digits_val_of_dec(s, i, b.len());
            let j = i + dlen;
            assert(s.subrange(j + 1, j + 1 + b.len() as int) =~= b) by {
                assert forall|k: int|
                    0 <= k < b.len() implies #[trigger] s.subrange(
                    j + 1,
                    j + 1 + b.len() as int,
                )[k] == b[k] by {
                    assert(s.subrange(j + 1, j + 1 + b.len() as int)[k] == s[j + 1 + k]);
                    assert(s[j + 1 + k] == e[dlen + 1 + k]);
                    assert(e[dlen + 1 + k] == b[k]);
                }
            }
        },
        Bval::Int(x) => {
            if x < 0 {
                let mag = (-x) as nat;
                let du = dec_u(mag);
                let dlen = du.len() as int;
                lemma_dec_u_shape(mag);
                assert(e == seq![105u8] + (seq![45u8] + du) + seq![101u8]);
                assert(s[i + 1] == e[1]);
                assert(e[1] == 45);
                let ds = i + 2;
                assert forall|k: int| ds <= k < ds + dlen implies is_digit(#[trigger] s[k]) by {
                    assert(s[k] == e[k - i]);
                    assert(e[k - i] == du[k - i - 2]);
                }
                assert(s[ds + dlen] == e[2 + dlen]);
                assert(e[2 + dlen] == 101);
                lemma_digits_end_exact(s, ds, ds + dlen);
                assert(s.subrange(ds, ds + dlen) =~= du) by {
                    assert forall|k: int|
                        0 <= k < dlen implies #[trigger] s.subrange(ds, ds + dlen)[k] == du[k] by {
                        assert(s.subrange(ds, ds + dlen)[k] == s[ds + k]);
                        assert(s[ds + k] == e[2 + k]);
                        assert(e[2 + k] == du[k]);
                    }
                }
                lemma_digits_val_of_dec(s, ds, mag);
                assert(s[ds] == du[0]);
                assert(mag >= 1);
                if mag < 10 {
                    assert(du[0] == (48 + mag) as u8);
                }
                assert(s[ds] != 48);
            } else {
                let mag = x as nat;
                let du = dec_u(mag);
                let dlen = du.len() as int;
                lemma_dec_u_shape(mag);
                assert(e == seq![105u8] + du + seq![101u8]);
                assert(s[i + 1] == e[1]);
                assert(e[1] == du[0]);
                assert(is_digit(du[0]));
                assert(s[i + 1] != 45);
                let ds = i + 1;
                assert forall|k: int| ds <= k < ds + dlen implies is_digit(#[trigger] s[k]) by {
                    assert(s[k] == e[k - i]);
                    assert(e[k - i] == du[k - i - 1]);
                }
                assert(s[ds + dlen] == e[1 + dlen]);
                assert(e[1 + dlen] == 101);
                lemma_digits_end_exact(s, ds, ds + dlen);
                assert(s.subrange(ds, ds + dlen) =~= du) by {
                    assert forall|k: int|
                        0 <= k < dlen implies #[trigger] s.subrange(ds, ds + dlen)[k] == du[k] by {
                        assert(s.subrange(ds, ds + dlen)[k] == s[ds + k]);
                        assert(s[ds + k] == e[1 + k]);
                        assert(e[1 + k] == du[k]);
                    }
                }
                lemma_digits_val_of_dec(s, ds, mag);
                assert(s[ds] == du[0]);
                if mag >= 10 {
                    assert(s[ds] != 48);
                } else {
                    assert(digits_end(s, ds) == ds + 1);
                }
            }
        },
        Bval::List(l) => {
            let el = encode_items(l);
            let ilen = el.len() as int;
            assert(e == seq![108u8] + el + seq![101u8]);
            assert(s.subrange(i + 1, i + 1 + ilen) =~= el) by {
                assert forall|k: int| 0 <= k < ilen implies #[trigger] s.subrange(
                    i + 1,
                    i + 1 + ilen,
                )[k] == el[k] by {
                    assert(s.subrange(i + 1, i + 1 + ilen)[k] == s[i + 1 + k]);
                    assert(s[i + 1 + k] == e[1 + k]);
                    assert(e[1 + k] == el[k]);
                }
            }
            assert(s[i + 1 + ilen] == e[1 + ilen]);
            assert(e[1 + ilen] == 101);
            lemma_decode_encode_items(l, s, i + 1);
        },
        Bval::Dict(d) => {
            let ep = encode_pairs(d);
            let plen = ep.len() as int;
            assert(e == seq![100u8] + ep + seq![101u8]);
            assert(s.subrange(i + 1, i + 1 + plen) =~= ep) by {
                assert forall|k: int| 0 <= k < plen implies #[trigger] s.subrange(
                    i + 1,
                    i + 1 + plen,
                )[k] == ep[k] by {
                    assert(s.subrange(i + 1, i + 1 + plen)[k] == s[i + 1 + k]);
                    assert(s[i + 1 + k] == e[1 + k]);
                    assert(e[1 + k] == ep[k]);
                }
            }
            assert(s[i + 1 + plen] == e[1 + plen]);
            assert(e[1 + plen] == 101);
            lemma_decode_encode_pairs(d, s, i + 1);
            assert(Seq::<(Seq<u8>, Bval)>::empty() + d =~= d);
            lemma_dict_insert_all_sorted(Seq::<(Seq<u8>, Bval)>::empty(), d);
        },
    }
}

/// Decoding the embedded item encodings of a list body, up to its
/// terminator, yields exactly those items.
pub proof fn lemma_decode_encode_items(l: Seq<Bval>, s: Seq<u8>, i: int)
    requires
        forall|t: int| 0 <= t < l.len() ==> wf(#[trigger] l[t]),
        0 <= i,
        i + encode_items(l).len() + 1 <= s.len(),
        s.subrange(i, i + encode_items(l).len()) == encode_items(l),
        s[i + encode_items(l).len()] == 101,
    ensures
        spec_decode_items(s, i) == Ok::<(Seq<Bval>, int), DecodeError>(
            (l, i + encode_items(l).len() + 1),
        ),
    decreases l,
{
    let el = encode_items(l);
    let elen = el.len() as int;
    assert forall|k: int| 0 <= k < elen implies s[i + k] == el[k] by {
        assert(s.subrange(i, i + elen)[k] == s[i + k]);
    }
    if l.len() == 0 {
        assert(l =~= Seq::<Bval>::empty());
    } else {
        let v0 = l[0];
        let e0 = spec_encode(v0);
        let e0len = e0.len() as int;
        let rest = l.drop_first();
        assert(el == e0 + encode_items(rest));
        lemma_encode_shape(v0);
        assert(s[i] == el[0]);
        assert(el[0] == e0[0]);
        assert(s.subrange(i, i + e0len) =~= e0) by {
            assert forall|k: int| 0 <= k < e0len implies #[trigger] s.subrange(i, i + e0len)[k]
                == e0[k] by {
                assert(s.subrange(i, i + e0len)[k] == s[i + k]);
                assert(el[k] == e0[k]);
            }
        }
        lemma_decode_encode_at(v0, s, i);
        let j = i + e0len;
        let rlen = encode_items(rest).len() as int;
        assert(s.subrange(j, j + rlen) =~= encode_items(rest)) by {
            assert forall|k: int| 0 <= k < rlen implies #[trigger] s.subrange(j, j + rlen)[k]
                == encode_items(rest)[k] by {
                assert(s.subrange(j, j + rlen)[k] == s[j + k]);
                assert(s[j + k] == el[e0len + k]);
                assert(el[e0len + k] == encode_items(rest)[k]);
            }
        }
        assert(s[j + rlen] == 101);
        lemma_decode_encode_items(rest, s, j);
        assert(seq![v0] + rest =~= l);
    }
}

/// Decoding the embedded entry encodings of a dictionary body, up to its
/// terminator, yields exactly those entries in wire order.
pub proof fn lemma_decode_encode_pairs(d: Seq<(Seq<u8>, Bval)>, s: Seq<u8>, i: int)
    requires
        forall|t: int| 0 <= t < d.len() ==> wf(#[trigger] d[t].1),
        0 <= i,
        i + encode_pairs(d).len() + 1 <= s.len(),
        s.subrange(i, i + encode_pairs(d).len()) == encode_pairs(d),
        s[i + encode_pairs(d).len()] == 101,
    ensures
        spec_decode_pairs(s, i) == Ok::<(Seq<(Seq<u8>, Bval)>, int), DecodeError>(
            (d, i + encode_pairs(d).len() + 1),
        ),
    decreases d,
{
    let ep = encode_pairs(d);
    let eplen = ep.len() as int;
    assert forall|k: int| 0 <= k < eplen implies s[i + k] == ep[k] by {
        assert(s.subrange(i, i + eplen)[k] == s[i + k]);
    }
    if d.len() == 0 {
        assert(d =~= Seq::<(Seq<u8>, Bval)>::empty());
    } else {
        let k0 = d[0].0;
        let v0 = d[0].1;
        let du = dec_u(k0.len());
        let dlen = du.len() as int;
        let e0 = spec_encode(v0);
        let e0len = e0.len() as int;
        let rest = d.drop_first();
        assert(ep == du + seq![58u8] + k0 + e0 + encode_pairs(rest));
        lemma_dec_u_shape(k0.len());
        lemma_encode_shape(v0);
        assert forall|k: int| i <= k < i + dlen implies is_digit(#[trigger] s[k]) by {
            assert(s[k] == ep[k - i]);
            assert(ep[k - i] == du[k - i]);
        }
        assert(s[i] == ep[0]);
        assert(ep[0] == du[0]);
        assert(s[i + dlen] == ep[dlen]);
        assert(ep[dlen] == 58);
        lemma_digits_end_exact(s, i, i + dlen);
        assert(s.subrange(i, i + dlen) =~= du) by {
            assert forall|k: int| 0 <= k < dlen implies #[trigger] s.subrange(i, i + dlen)[k]
                == du[k] by {
                assert(s.subrange(i, i + dlen)[k] == s[i + k]);
                assert(ep[k] == du[k]);
            }
        }
        lemma_digits_val_of_dec(s, i, k0.len());
        let j = i + dlen;
        let klen = k0.len() as int;
        assert(s.subrange(j + 1, j + 1 + klen) =~= k0) by {
            assert forall|k: int| 0 <= k < klen implies #[trigger] s.subrange(
                j + 1,
                j + 1 + klen,
            )[k] == k0[k] by {
                assert(s.subrange(j + 1, j + 1 + klen)[k] == s[j + 1 + k]);
                assert(s[j + 1 + k] == ep[dlen + 1 + k]);
                assert(ep[dlen + 1 + k] == k0[k]);
            }
        }
        let vstart = j + 1 + klen;
        assert(s.subrange(vstart, vstart + e0len) =~= e0) by {
            assert forall|k: int| 0 <= k < e0len implies #[trigger] s.subrange(
                vstart,
                vstart + e0len,
            )[k] == e0[k] by {
                assert(s.subrange(vstart, vstart + e0len)[k] == s[vstart + k]);
                assert(s[vstart + k] == ep[dlen + 1 + klen + k]);
                assert(ep[dlen + 1 + klen + k] == e0[k]);
            }
        }
        lemma_decode_encode_at(v0, s, vstart);
        let w = vstart + e0len;
        let rlen = encode_pairs(rest).len() as int;
        assert(s.subrange(w, w + rlen) =~= encode_pairs(rest)) by {
            assert forall|k: int| 0 <= k < rlen implies #[trigger] s.subrange(w, w + rlen)[k]
                == encode_pairs(rest)[k] by {
                assert(s.subrange(w, w + rlen)[k] == s[w + k]);
                assert(s[w + k] == ep[dlen + 1 + klen + e0len + k]);
                assert(ep[dlen + 1 + klen + e0len + k] == encode_pairs(rest)[k]);
            }
        }
        assert(s[w + rlen] == 101);
        lemma_decode_encode_pairs(rest, s, w);
        assert(seq![(k0, v0)] + rest =~= d) by {
            assert(d[0] == (k0, v0));
        }
    }
}

/// Round trip: decoding the canonical encoding of a well-formed value yields
/// exactly that value, with nothing left over.
pub proof fn lemma_decode_encode(v: Bval)
    requires
        wf(v),
    ensures
        spec_decode(spec_encode(v)) == Ok::<Bval, DecodeError>(v),
{
    let s = spec_encode(v);
    assert(s.subrange(0, s.len() as int) =~= s);
    lemma_decode_encode_at(v, s, 0);
}

/// Why a decoded value has no JSON text.
#[derive(PartialEq, Eq, Structural, Clone, Copy, Debug)]
pub enum ConvertError {
    /// A byte string or dictionary key that is not UTF-8 cannot become a
    /// JSON string.
    NotUtf8,
}

/// The lowercase hexadecimal digit byte of a value below sixteen.
pub open spec fn hex_digit_byte(n: u8) -> u8 {
    if n < 10 {
        (48 + n) as u8
    } else {
        (87 + n) as u8
    }
}

/// How one byte of a JSON string is written: the two-character escapes of
/// JSON for quote, backslash and the common control characters, `\u00..`
/// for the remaining control characters, the byte itself otherwise.
pub open spec fn json_escape_byte(b: u8) -> Seq<u8> {
    if b == 34 {
        seq![92u8, 34u8]
    } else if b == 92 {
        seq![92u8, 92u8]
    } else if b == 8 {
        seq![92u8, 98u8]
    } else if b == 12 {
        seq![92u8, 102u8]
    } else if b == 10 {
        seq![92u8, 110u8]
    } else if b == 13 {
        seq![92u8, 114u8]
    } else if b == 9 {
        seq![92u8, 116u8]
    } else if b < 32 {
        seq![92u8, 117u8, 48u8, 48u8, hex_digit_byte(b / 16), hex_digit_byte(b % 16)]
    } else {
        seq![b]
    }
}

/// A whole string body, escaped byte for byte.
pub open spec fn json_escape(bytes: Seq<u8>) -> Seq<u8>
    decreases bytes.len(),
{
    if bytes.len() == 0 {
        Seq::<u8>::empty()
    } else {
        json_escape_byte(bytes[0]) + json_escape(bytes.drop_first())
    }
}

/// The JSON text of a decoded value: quoted escaped strings (UTF-8 only),
/// decimal integers, bracketed comma-separated lists, braced dictionaries.
pub open spec fn spec_json(v: Bval) -> Result<Seq<u8>, ConvertError>
    decreases v, 0nat,
{
    match v {
        Bval::Bytes(b) => if valid_utf8(b) {
            Ok(seq![34u8] + json_escape(b) + seq![34u8])
        } else {
            Err(ConvertError::NotUtf8)
        },
        Bval::Int(i) => Ok(dec_i(i)),
        Bval::List(l) => match spec_json_items(l) {
            Ok(body) => Ok(seq![91u8] + body + seq![93u8]),
            Err(e) => Err(e),
        },
        Bval::Dict(d) => match spec_json_pairs(d) {
            Ok(body) => Ok(seq![123u8] + body + seq![125u8]),
            Err(e) => Err(e),
        },
    }
}

/// A list body: the items' JSON texts joined by commas.
pub open spec fn spec_json_items(l: Seq<Bval>) -> Result<Seq<u8>, ConvertError>
    decreases l, 1nat,
{
    if l.len() == 0 {
        Ok(Seq::<u8>::empty())
    } else {
        match spec_json(l[0]) {
            Err(e) => Err(e),
            Ok(first) => match spec_json_items(l.drop_first()) {
                Err(e) => Err(e),
                Ok(rest) => if l.len() == 1 {
                    Ok(first)
                } else {
                    Ok(first + seq![44u8] + rest)
                },
            },
        }
    }
}

/// A dictionary body: `"key":value` texts joined by commas.
pub open spec fn spec_json_pairs(d: Seq<(Seq<u8>, Bval)>) -> Result<Seq<u8>, ConvertError>
    decreases d, 1nat,
{
    if d.len() == 0 {
        Ok(Seq::<u8>::empty())
    } else if !valid_utf8(d[0].0) {
        Err(ConvertError::NotUtf8)
    } else {
        match spec_json(d[0].1) {
            Err(e) => Err(e),
            Ok(jv) => match spec_json_pairs(d.drop_first()) {
                Err(e) => Err(e),
                Ok(rest) => {
                    let head = seq![34u8] + json_escape(d[0].0) + seq![34u8, 58u8] + jv;
                    if d.len() == 1 {
                        Ok(head)
                    } else {
                        Ok(head + seq![44u8] + rest)
                    }
                },
            },
        }
    }
}

/// Escaping one more byte appends its escape.
pub proof fn lemma_json_escape_snoc(s: Seq<u8>, x: u8)
    ensures
        json_escape(s.push(x)) == json_escape(s) + json_escape_byte(x),
    decreases s.len(),
{
    let q = s.push(x);
    reveal_with_fuel(json_escape, 3);
    if s.len() == 0 {
        assert(q[0] == x);
        assert(q.drop_first() =~= Seq::<u8>::empty());
        assert(json_escape(q) =~= json_escape(s) + json_escape_byte(x));
    } else {
        assert(q[0] == s[0]);
        assert(q.drop_first() =~= s.drop_first().push(x));
        lemma_json_escape_snoc(s.drop_first(), x);
        assert(json_escape_byte(s[0]) + (json_escape(s.drop_first()) + json_escape_byte(x))
            =~= json_escape(s) + json_escape_byte(x));
    }
}

/// Rendering one more item appends a comma (after a nonempty body) and its
/// text; a failing item fails the body.
pub proof fn lemma_json_items_snoc(s: Seq<Bval>, x: Bval)
    requires
        spec_json_items(s) is Ok,
    ensures
        (match spec_json(x) {
            Ok(jx) => spec_json_items(s.push(x)) == Ok::<Seq<u8>, ConvertError>(
                if s.len() == 0 {
                    jx
                } else {
                    spec_json_items(s).unwrap() + seq![44u8] + jx
                },
            ),
            Err(e) => spec_json_items(s.push(x)) == Err::<Seq<u8>, ConvertError>(e),
        }),
    decreases s.len(),
{
    let q = s.push(x);
    reveal_with_fuel(spec_json_items, 3);
    if s.len() == 0 {
        assert(q[0] == x);
        assert(q.drop_first() =~= Seq::<Bval>::empty());
    } else {
        assert(q[0] == s[0]);
        assert(q.drop_first() =~= s.drop_first().push(x));
        lemma_json_items_snoc(s.drop_first(), x);
        if spec_json(x) is Ok && s.len() > 1 {
            assert(spec_json(s[0]).unwrap() + seq![44u8] + (spec_json_items(
                s.drop_first(),
            ).unwrap() + seq![44u8] + spec_json(x).unwrap()) =~= spec_json_items(s).unwrap()
                + seq![44u8] + spec_json(x).unwrap());
        }
    }
}

/// Rendering one more entry appends a comma (after a nonempty body) and its
/// `"key":value` text; a failing key or value fails the body.
pub proof fn lemma_json_pairs_snoc(s: Seq<(Seq<u8>, Bval)>, p: (Seq<u8>, Bval))
    requires
        spec_json_pairs(s) is Ok,
    ensures
        (if !valid_utf8(p.0) {
            spec_json_pairs(s.push(p)) == Err::<Seq<u8>, ConvertError>(ConvertError::NotUtf8)
        } else {
            match spec_json(p.1) {
                Ok(jv) => spec_json_pairs(s.push(p)) == Ok::<Seq<u8>, ConvertError>(
                    {
                        let head = seq![34u8] + json_escape(p.0) + seq![34u8, 58u8] + jv;
                        if s.len() == 0 {
                            head
                        } else {
                            spec_json_pairs(s).unwrap() + seq![44u8] + head
                        }
                    },
                ),
                Err(e) => spec_json_pairs(s.push(p)) == Err::<Seq<u8>, ConvertError>(e),
            }
        }),
    decreases s.len(),
{
    let q = s.push(p);
    reveal_with_fuel(spec_json_pairs, 3);
    if s.len() == 0 {
        assert(q[0] == p);
        assert(q.drop_first() =~= Seq::<(Seq<u8>, Bval)>::empty());
    } else {
        assert(q[0] == s[0]);
        assert(q.drop_first() =~= s.drop_first().push(p));
        lemma_json_pairs_snoc(s.drop_first(), p);
        if valid_utf8(p.0) && spec_json(p.1) is Ok && s.len() > 1 {
            let head0 = seq![34u8] + json_escape(s[0].0) + seq![34u8, 58u8] + spec_json(
                s[0].1,
            ).unwrap();
            let headp = seq![34u8] + json_escape(p.0) + seq![34u8, 58u8] + spec_json(p.1).unwrap();
            assert(head0 + seq![44u8] + (spec_json_pairs(s.drop_first()).unwrap() + seq![44u8]
                + headp) =~= spec_json_pairs(s).unwrap() + seq![44u8] + headp);
        }
    }
}

/// A failing item fails the whole list body, with the first fault.
pub proof fn lemma_json_items_err(l: Seq<Bval>, k: int, e: ConvertError)
    requires
        0 <= k < l.len(),
        spec_json_items(l.take(k)) is Ok,
        spec_json(l[k]) == Err::<Seq<u8>, ConvertError>(e),
    ensures
        spec_json_items(l) == Err::<Seq<u8>, ConvertError>(e),
    decreases k,
{
    if k == 0 {
    } else {
        assert(l.take(k)[0] == l[0]);
        assert(l.take(k).drop_first() =~= l.drop_first().take(k - 1));
        assert(l.drop_first()[k - 1] == l[k]);
        lemma_json_items_err(l.drop_first(), k - 1, e);
    }
}

/// A failing key or value fails the whole dictionary body, with the first
/// fault.
pub proof fn lemma_json_pairs_err(d: Seq<(Seq<u8>, Bval)>, k: int, e: ConvertError)
    requires
        0 <= k < d.len(),
        spec_json_pairs(d.take(k)) is Ok,
        (if !valid_utf8(d[k].0) {
            e == ConvertError::NotUtf8
        } else {
            spec_json(d[k].1) == Err::<Seq<u8>, ConvertError>(e)
        }),
    ensures
        spec_json_pairs(d) == Err::<Seq<u8>, ConvertError>(e),
    decreases k,
{
    if k == 0 {
    } else {
        assert(d.take(k)[0] == d[0]);
        assert(d.take(k).drop_first() =~= d.drop_first().take(k - 1));
        assert(d.drop_first()[k - 1] == d[k]);
        lemma_json_pairs_err(d.drop_first(), k - 1, e);
    }
}

/// Appends the escape of every byte of `b`.
#[verifier::loop_isolation(false)]
fn escape_into(b: &Vec<u8>, out: &mut Vec<u8>)
    ensures
        final(out)@ == old(out)@ + json_escape(b@),
{
    proof {
        assert(b@.take(0) =~= Seq::<u8>::empty());
        assert(out@ =~= old(out)@ + json_escape(b@.take(0)));
    }
    let mut k: usize = 0;
    while k < b.len()
        invariant
            0 <= k <= b@.len(),
            out@ == old(out)@ + json_escape(b@.take(k as int)),
        decreases b@.len() - k,
    {
        let x = b[k];
        if x == 34 {
            out.push(92);
            out.push(34);
        } else if x == 92 {
            out.push(92);
            out.push(92);
        } else if x == 8 {
            out.push(92);
            out.push(98);
        } else if x == 12 {
            out.push(92);
            out.push(102);
        } else if x == 10 {
            out.push(92);
            out.push(110);
        } else if x == 13 {
            out.push(92);
            out.push(114);
        } else if x == 9 {
            out.push(92);
            out.push(116);
        } else if x < 32 {
            out.push(92);
            out.push(117);
            out.push(48);
            out.push(48);
            let hi = x / 16;
            let lo = x % 16;
            out.push(
                if hi < 10 {
                    48 + hi
                } else {
                    87 + hi
                },
            );
            out.push(
                if lo < 10 {
                    48 + lo
                } else {
                    87 + lo
                },
            );
        } else {
            out.push(x);
        }
        proof {
            assert(b@.take(k as int + 1) =~= b@.take(k as int).push(x));
            lemma_json_escape_snoc(b@.take(k as int), x);
            assert(out@ =~= old(out)@ + json_escape(b@.take(k as int + 1)));
        }
        k = k + 1;
    }
    proof {
        assert(b@.take(b@.len() as int) =~= b@);
    }
}

/// The end of the digit run starting at `i`.
#[verifier::loop_isolation(false)]
fn scan_digits(s: &[u8], i: usize) -> (j: usize)
    requires
        i <= s@.len(),
    ensures
        j == digits_end(s@, i as int),
        i <= j <= s@.len(),
{
    let mut j: usize = i;
    while j < s.len()
        invariant
            i <= j <= s@.len(),
            digits_end(s@, i as int) == digits_end(s@, j as int),
        decreases s@.len() - j,
    {
        let b = s[j];
        if b < 48 || b > 57 {
            return j;
        }
        j = j + 1;
    }
    j
}

/// The value of a digit run, or `None` where it exceeds a 64-bit word.
#[verifier::loop_isolation(false)]
fn digits_to_u64(s: &[u8], i: usize, j: usize) -> (r: Option<u64>)
    requires
        i <= j <= s@.len(),
        forall|k: int| i <= k < j ==> is_digit(#[trigger] s@[k]),
    ensures
        match r {
            Some(n) => n as nat == digits_val(s@, i as int, j as int),
            None => digits_val(s@, i as int, j as int) > u64::MAX,
        },
{
    let mut acc: u64 = 0;
    let mut k: usize = i;
    while k < j
        invariant
            i <= k <= j,
            acc as nat == digits_val(s@, i as int, k as int),
        decreases j - k,
    {
        let d = s[k] - 48;
        let m = acc.checked_mul(10);
        if m.is_none() {
            proof {
                lemma_digits_val_mono(s@, i as int, k as int + 1, j as int);
            }
            return None;
        }
        let a2 = m.unwrap().checked_add(d as u64);
        if a2.is_none() {
            proof {
                lemma_digits_val_mono(s@, i as int, k as int + 1, j as int);
            }
            return None;
        }
        acc = a2.unwrap();
        k = k + 1;
    }
    Some(acc)
}

/// Recursive-descent bencode decoding with an explicit cursor: malformed or
/// truncated input yields an error, never a panic or an overread.
pub struct Decoder;

impl Decoder {
    /// Decodes one value starting at `i` and reports the position just past
    /// it, exactly as `spec_decode_at` describes.
    #[verifier::loop_isolation(false)]
    fn decode_at(s: &[u8], i: usize) -> (r: Result<(BencodeValue, usize), DecodeError>)
        requires
            i <= s@.len(),
        ensures
            (match r {
                Ok(p) => spec_decode_at(s@, i as int) == Ok::<(Bval, int), DecodeError>(
                    (p.0@, p.1 as int),
                ) && i < p.1 <= s@.len() && wf(p.0@),
                Err(e) => spec_decode_at(s@, i as int) == Err::<(Bval, int), DecodeError>(e),
            }),
        decreases s@.len() - i,
    {
        if i >= s.len() {
            return Err(DecodeError::UnexpectedEnd { at: i });
        }
        let b = s[i];
        if 48 <= b && b <= 57 {
            let j = scan_digits(s, i);
            proof {
                lemma_digits_end_bounds(s@, i as int);
            }
            if j >= s.len() || s[j] != 58 {
                return Err(DecodeError::BadLength { at: j });
            }
            let nopt = digits_to_u64(s, i, j);
            let remaining: u64 = (s.len() - (j + 1)) as u64;
            match nopt {
                None => {
                    proof {
                        assert(j + 1 + digits_val(s@, i as int, j as int) > s@.len());
                    }
                    return Err(DecodeError::LengthExceedsInput { at: i });
                },
                Some(n64) => {
                    if n64 > remaining {
                        return Err(DecodeError::LengthExceedsInput { at: i });
                    }
                    let n = n64 as usize;
                    let content = vstd::slice::slice_to_vec(&s[j + 1..j + 1 + n]);
                    proof {
                        assert(content@ == s@.subrange(j as int + 1, j as int + 1 + n as int));
                    }
                    return Ok((BencodeValue::ByteString(content), j + 1 + n));
                },
            }
        }
        if b == 105 {
            let neg = i + 1 < s.len() && s[i + 1] == 45;
            let ds: usize = if neg {
                i + 2
            } else {
                i + 1
            };
            let j = scan_digits(s, ds);
            proof {
                lemma_digits_end_bounds(s@, ds as int);
            }
            if j == ds {
                return Err(DecodeError::BadInteger { at: i });
            }
            if j >= s.len() || s[j] != 101 {
                return Err(DecodeError::BadInteger { at: i });
            }
            if s[ds] == 48 && j > ds + 1 {
                return Err(DecodeError::BadInteger { at: i });
            }
            if neg && s[ds] == 48 {
                return Err(DecodeError::BadInteger { at: i });
            }
            let mopt = digits_to_u64(s, ds, j);
            match mopt {
                None => {
                    proof {
                        let m = digits_val(s@, ds as int, j as int);
                        assert(m > u64::MAX);
                        if neg {
                            assert(-(m as int) < i64::MIN);
                        } else {
                            assert(m as int > i64::MAX);
                        }
                    }
                    return Err(DecodeError::BadInteger { at: i });
                },
                Some(m64) => {
                    if neg {
                        if m64 > 9223372036854775808u64 {
                            return Err(DecodeError::BadInteger { at: i });
                        }
                        let val: i64 = if m64 == 9223372036854775808u64 {
                            i64::MIN
                        } else {
                            -(m64 as i64)
                        };
                        proof {
                            assert(val as int == -(m64 as int));
                        }
                        return Ok((BencodeValue::Integer(val), j + 1));
                    } else {
                        if m64 > 9223372036854775807u64 {
                            return Err(DecodeError::BadInteger { at: i });
                        }
                        return Ok((BencodeValue::Integer(m64 as i64), j + 1));
                    }
                },
            }
        }
        if b == 108 {
            let mut items: Vec<BencodeValue> = Vec::new();
            let ghost mut ml: Seq<Bval> = Seq::<Bval>::empty();
            let mut pos: usize = i + 1;
            proof {
                assert(model_items(items@) =~= ml);
                match spec_decode_items(s@, i as int + 1) {
                    Ok(p) => {
                        assert(ml + p.0 =~= p.0);
                    },
                    Err(e) => {},
                }
            }
            loop
                invariant
                    i < s@.len(),
                    s@[i as int] == 108,
                    i + 1 <= pos <= s@.len(),
                    model_items(items@) == ml,
                    forall|t: int| 0 <= t < ml.len() ==> wf(#[trigger] ml[t]),
                    (match spec_decode_items(s@, pos as int) {
                        Ok(p) => spec_decode_items(s@, i as int + 1) == Ok::<
                            (Seq<Bval>, int),
                            DecodeError,
                        >((ml + p.0, p.1)),
                        Err(e) => spec_decode_items(s@, i as int + 1) == Err::<
                            (Seq<Bval>, int),
                            DecodeError,
                        >(e),
                    }),
                decreases s@.len() - pos,
            {
                if pos >= s.len() {
                    return Err(DecodeError::UnexpectedEnd { at: pos });
                }
                if s[pos] == 101 {
                    proof {
                        assert(spec_decode_items(s@, pos as int) == Ok::<
                            (Seq<Bval>, int),
                            DecodeError,
                        >((Seq::<Bval>::empty(), pos as int + 1)));
                        assert(ml + Seq::<Bval>::empty() =~= ml);
                    }
                    let res = BencodeValue::List(items);
                    proof {
                        assert(res@ == Bval::List(ml));
                    }
                    return Ok((res, pos + 1));
                }
                match Self::decode_at(s, pos) {
                    Err(e) => {
                        return Err(e);
                    },
                    Ok(p) => {
                        let (v, j) = p;
                        let ghost gv = v@;
                        let ghost oldits = items@;
                        proof {
                            match spec_decode_items(s@, j as int) {
                                Ok(q) => {
                                    assert(ml + (seq![gv] + q.0) =~= ml.push(gv) + q.0);
                                },
                                Err(e) => {},
                            }
                            lemma_model_items(items@);
                        }
                        items.push(v);
                        proof {
                            lemma_model_items(items@);
                            assert forall|t: int|
                                0 <= t < model_items(items@).len() implies model_items(items@)[t]
                                == ml.push(gv)[t] by {
                                assert(model_items(items@)[t] == model(items@[t]));
                                if t < oldits.len() {
                                    assert(items@[t] == oldits[t]);
                                    assert(model_items(oldits)[t] == model(oldits[t]));
                                } else {
                                    assert(model(items@[t]) == gv);
                                }
                            }
                            assert(model_items(items@) =~= ml.push(gv));
                            ml = ml.push(gv);
                        }
                        pos = j;
                    },
                }
            }
        }
        if b == 100 {
            let mut entries: Vec<(Vec<u8>, BencodeValue)> = Vec::new();
            let ghost mut ps: Seq<(Seq<u8>, Bval)> = Seq::<(Seq<u8>, Bval)>::empty();
            let mut pos: usize = i + 1;
            proof {
                assert(model_entries(entries@) =~= dict_insert_all(
                    Seq::<(Seq<u8>, Bval)>::empty(),
                    ps,
                ));
                match spec_decode_pairs(s@, i as int + 1) {
                    Ok(p) => {
                        assert(ps + p.0 =~= p.0);
                    },
                    Err(e) => {},
                }
            }
            loop
                invariant
                    i < s@.len(),
                    s@[i as int] == 100,
                    i + 1 <= pos <= s@.len(),
                    model_entries(entries@) == dict_insert_all(Seq::<(Seq<u8>, Bval)>::empty(), ps),
                    wf(Bval::Dict(model_entries(entries@))),
                    (match spec_decode_pairs(s@, pos as int) {
                        Ok(p) => spec_decode_pairs(s@, i as int + 1) == Ok::<
                            (Seq<(Seq<u8>, Bval)>, int),
                            DecodeError,
                        >((ps + p.0, p.1)),
                        Err(e) => spec_decode_pairs(s@, i as int + 1) == Err::<
                            (Seq<(Seq<u8>, Bval)>, int),
                            DecodeError,
                        >(e),
                    }),
                decreases s@.len() - pos,
            {
                if pos >= s.len() {
                    return Err(DecodeError::UnexpectedEnd { at: pos });
                }
                let pb = s[pos];
                if pb == 101 {
                    proof {
                        assert(spec_decode_pairs(s@, pos as int) == Ok::<
                            (Seq<(Seq<u8>, Bval)>, int),
                            DecodeError,
                        >((Seq::<(Seq<u8>, Bval)>::empty(), pos as int + 1)));
                        assert(ps + Seq::<(Seq<u8>, Bval)>::empty() =~= ps);
                    }
                    let res = BencodeValue::Dict(entries);
                    proof {
                        assert(res@ == Bval::Dict(dict_insert_all(
                            Seq::<(Seq<u8>, Bval)>::empty(),
                            ps,
                        )));
                    }
                    return Ok((res, pos + 1));
                }
                if pb < 48 || pb > 57 {
                    return Err(DecodeError::UnexpectedByte { at: pos });
                }
                let j = scan_digits(s, pos);
                proof {
                    lemma_digits_end_bounds(s@, pos as int);
                }
                if j >= s.len() || s[j] != 58 {
                    return Err(DecodeError::BadLength { at: j });
                }
                let nopt = digits_to_u64(s, pos, j);
                let remaining: u64 = (s.len() - (j + 1)) as u64;
                let n64 = match nopt {
                    None => {
                        proof {
                            assert(j + 1 + digits_val(s@, pos as int, j as int) > s@.len());
                        }
                        return Err(DecodeError::LengthExceedsInput { at: pos });
                    },
                    Some(n64) => n64,
                };
                if n64 > remaining {
                    return Err(DecodeError::LengthExceedsInput { at: pos });
                }
                let n = n64 as usize;
                let key = vstd::slice::slice_to_vec(&s[j + 1..j + 1 + n]);
                proof {
                    assert(key@ == s@.subrange(j as int + 1, j as int + 1 + n as int));
                }
                match Self::decode_at(s, j + 1 + n) {
                    Err(e) => {
                        return Err(e);
                    },
                    Ok(p) => {
                        let (v, w) = p;
                        let ghost gk = key@;
                        let ghost gv = v@;
                        proof {
                            match spec_decode_pairs(s@, w as int) {
                                Ok(q) => {
                                    assert(ps + (seq![(gk, gv)] + q.0) =~= ps.push((gk, gv))
                                        + q.0);
                                },
                                Err(e) => {},
                            }
                            lemma_dict_insert_all_snoc(
                                Seq::<(Seq<u8>, Bval)>::empty(),
                                ps,
                                (gk, gv),
                            );
                            lemma_dict_insert_sorted(model_entries(entries@), gk, gv);
                        }
                        let ghost dprev = model_entries(entries@);
                        dict_insert_entry(&mut entries, key, v);
                        proof {
                            assert(model_entries(entries@) == dict_insert(dprev, gk, gv));
                            assert(wf(Bval::Dict(model_entries(entries@)))) by {
                                let dn = model_entries(entries@);
                                assert(entries_sorted(dn));
                                assert forall|t: int| 0 <= t < dn.len() implies wf(
                                    #[trigger] dn[t].1,
                                ) by {
                                    if dn[t] == (gk, gv) {
                                    } else {
                                        let u = choose|u: int|
                                            0 <= u < dprev.len() && dn[t] == dprev[u];
                                        assert(wf(dprev[u].1));
                                    }
                                }
                            }
                            ps = ps.push((gk, gv));
                        }
                        pos = w;
                    },
                }
            }
        }
        Err(DecodeError::UnexpectedByte { at: i })
    }

    /// Decodes a whole byte string as one bencode value, rejecting trailing
    /// bytes, exactly as `spec_decode` describes; the result is well formed.
    pub fn decode_bencoded_bytes(encoded_value: &[u8]) -> (r: Result<BencodeValue, DecodeError>)
        ensures
            (match r {
                Ok(v) => spec_decode(encoded_value@) == Ok::<Bval, DecodeError>(v@) && wf(v@),
                Err(e) => spec_decode(encoded_value@) == Err::<Bval, DecodeError>(e),
            }),
    {
        match Self::decode_at(encoded_value, 0) {
            Err(e) => Err(e),
            Ok(p) => {
                let (v, j) = p;
                if j == encoded_value.len() {
                    Ok(v)
                } else {
                    Err(DecodeError::TrailingBytes { at: j })
                }
            },
        }
    }

    /// Looks a key up among a dictionary's entries and returns its text,
    /// or the error naming the field: missing where the key is absent, wrong
    /// type where the value is no byte string or not UTF-8.
    pub fn extract_string(key: &str, d: &Vec<(Vec<u8>, BencodeValue)>) -> (r: Result<
        String,
        ParseError,
    >)
        ensures
            (match r {
                Ok(s) => (match dict_lookup(model_entries(d@), key.spec_bytes()) {
                    Some(bv) => bv matches Bval::Bytes(b) && valid_utf8(b) && s@ == decode_utf8(b),
                    None => false,
                }),
                Err(e) => (match dict_lookup(model_entries(d@), key.spec_bytes()) {
                    Some(bv) => !(bv matches Bval::Bytes(b) && valid_utf8(b)) && (e matches
                    ParseError::WrongType { field } && field@ == key@),
                    None => e matches ParseError::MissingField { field } && field@ == key@,
                }),
            }),
    {
        let kb = key.as_bytes_vec();
        match dict_get(d, &kb) {
            None => Err(ParseError::MissingField { field: key.to_owned() }),
            Some(v) => match v {
                BencodeValue::ByteString(b) => {
                    let copy = b.clone();
                    proof {
                        assert(copy@ =~= b@);
                    }
                    match utf8_to_string(copy) {
                        Some(s) => Ok(s),
                        None => Err(ParseError::WrongType { field: key.to_owned() }),
                    }
                },
                _ => Err(ParseError::WrongType { field: key.to_owned() }),
            },
        }
    }

    /// Looks a key up and returns its raw bytes, or the error naming the
    /// field.
    pub fn extract_bytes(key: &str, d: &Vec<(Vec<u8>, BencodeValue)>) -> (r: Result<
        Vec<u8>,
        ParseError,
    >)
        ensures
            (match r {
                Ok(b) => dict_lookup(model_entries(d@), key.spec_bytes()) == Some(
                    Bval::Bytes(b@),
                ),
                Err(e) => (match dict_lookup(model_entries(d@), key.spec_bytes()) {
                    Some(bv) => !(bv is Bytes) && (e matches ParseError::WrongType { field }
                        && field@ == key@),
                    None => e matches ParseError::MissingField { field } && field@ == key@,
                }),
            }),
    {
        let kb = key.as_bytes_vec();
        match dict_get(d, &kb) {
            None => Err(ParseError::MissingField { field: key.to_owned() }),
            Some(v) => match v {
                BencodeValue::ByteString(b) => {
                    let copy = b.clone();
                    proof {
                        assert(copy@ =~= b@);
                    }
                    Ok(copy)
                },
                _ => Err(ParseError::WrongType { field: key.to_owned() }),
            },
        }
    }

    /// Looks a key up and returns its dictionary entries, or the error naming
    /// the field.
    pub fn extract_dict(key: &str, d: &Vec<(Vec<u8>, BencodeValue)>) -> (r: Result<
        Vec<(Vec<u8>, BencodeValue)>,
        ParseError,
    >)
        ensures
            (match r {
                Ok(sub) => dict_lookup(model_entries(d@), key.spec_bytes()) == Some(
                    Bval::Dict(model_entries(sub@)),
                ),
                Err(e) => (match dict_lookup(model_entries(d@), key.spec_bytes()) {
                    Some(bv) => !(bv is Dict) && (e matches ParseError::WrongType { field }
                        && field@ == key@),
                    None => e matches ParseError::MissingField { field } && field@ == key@,
                }),
            }),
    {
        let kb = key.as_bytes_vec();
        match dict_get(d, &kb) {
            None => Err(ParseError::MissingField { field: key.to_owned() }),
            Some(v) => match v {
                BencodeValue::Dict(entries) => {
                    Ok(clone_entries(entries))
                },
                _ => Err(ParseError::WrongType { field: key.to_owned() }),
            },
        }
    }

    /// Looks a key up and returns its integer, or the error naming the field.
    pub fn extract_int(key: &str, d: &Vec<(Vec<u8>, BencodeValue)>) -> (r: Result<i64, ParseError>)
        ensures
            (match r {
                Ok(x) => dict_lookup(model_entries(d@), key.spec_bytes()) == Some(
                    Bval::Int(x as int),
                ),
                Err(e) => (match dict_lookup(model_entries(d@), key.spec_bytes()) {
                    Some(bv) => !(bv is Int) && (e matches ParseError::WrongType { field }
                        && field@ == key@),
                    None => e matches ParseError::MissingField { field } && field@ == key@,
                }),
            }),
    {
        let kb = key.as_bytes_vec();
        match dict_get(d, &kb) {
            None => Err(ParseError::MissingField { field: key.to_owned() }),
            Some(v) => match v {
                BencodeValue::Integer(x) => Ok(*x),
                _ => Err(ParseError::WrongType { field: key.to_owned() }),
            },
        }
    }

    /// The JSON text of a decoded value, exactly as `spec_json` describes:
    /// quoted escaped strings, decimal integers, bracketed lists, braced
    /// dictionaries; a byte string or key that is not UTF-8 is the one
    /// fault.
    pub fn convert(value: &BencodeValue) -> (r: Result<Vec<u8>, ConvertError>)
        ensures
            (match r {
                Ok(j) => spec_json(value@) == Ok::<Seq<u8>, ConvertError>(j@),
                Err(e) => spec_json(value@) == Err::<Seq<u8>, ConvertError>(e),
            }),
    {
        let mut out: Vec<u8> = Vec::new();
        match Self::convert_into(value, &mut out) {
            Ok(u) => Ok(out),
            Err(e) => Err(e),
        }
    }

    /// Appends the JSON text of `v`.
    fn convert_into(v: &BencodeValue, out: &mut Vec<u8>) -> (r: Result<(), ConvertError>)
        ensures
            (match r {
                Ok(u) => spec_json(v@) is Ok && final(out)@ == old(out)@ + spec_json(v@).unwrap(),
                Err(e) => spec_json(v@) == Err::<Seq<u8>, ConvertError>(e),
            }),
        decreases v, 0nat,
    {
        match v {
            BencodeValue::ByteString(b) => {
                if !is_valid_utf8(b.as_slice()) {
                    return Err(ConvertError::NotUtf8);
                }
                out.push(34);
                escape_into(b, out);
                out.push(34);
                proof {
                    assert(out@ =~= old(out)@ + spec_json(v@).unwrap());
                }
                Ok(())
            },
            BencodeValue::Integer(x) => {
                crate::encode::push_dec_i64(*x, out);
                Ok(())
            },
            BencodeValue::List(l) => {
                proof {
                    assert(decreases_to!(*v => (*v)->List_0));
                    assert(decreases_to!(*l => l@));
                }
                Self::convert_list(l, out)
            },
            BencodeValue::Dict(d) => {
                proof {
                    assert(decreases_to!(*v => (*v)->Dict_0));
                    assert(decreases_to!(*d => d@));
                }
                Self::convert_dict(d, out)
            },
        }
    }

    /// Appends the bracketed JSON text of a list.
    #[verifier::loop_isolation(false)]
    fn convert_list(l: &Vec<BencodeValue>, out: &mut Vec<u8>) -> (r: Result<(), ConvertError>)
        ensures
            (match r {
                Ok(u) => spec_json(Bval::List(model_items(l@))) is Ok && final(out)@ == old(out)@
                    + spec_json(Bval::List(model_items(l@))).unwrap(),
                Err(e) => spec_json(Bval::List(model_items(l@))) == Err::<Seq<u8>, ConvertError>(
                    e,
                ),
            }),
        decreases l@, 1nat,
    {
        out.push(91);
        let ghost ml = model_items(l@);
        proof {
            lemma_model_items(l@);
            assert(ml.take(0) =~= Seq::<Bval>::empty());
            assert(out@ =~= old(out)@ + seq![91u8] + spec_json_items(ml.take(0)).unwrap());
        }
        let mut k: usize = 0;
        while k < l.len()
            invariant
                0 <= k <= l@.len(),
                spec_json_items(ml.take(k as int)) is Ok,
                out@ == old(out)@ + seq![91u8] + spec_json_items(ml.take(k as int)).unwrap(),
            decreases l@.len() - k,
        {
            if k > 0 {
                out.push(44);
            }
            proof {
                assert(decreases_to!(l@ => l@[k as int]));
            }
            match Self::convert_into(&l[k], out) {
                Err(e) => {
                    proof {
                        lemma_json_items_err(ml, k as int, e);
                    }
                    return Err(e);
                },
                Ok(u) => {
                    proof {
                        assert(ml.take(k as int + 1) =~= ml.take(k as int).push(ml[k as int]));
                        lemma_json_items_snoc(ml.take(k as int), ml[k as int]);
                        assert(out@ =~= old(out)@ + seq![91u8] + spec_json_items(
                            ml.take(k as int + 1),
                        ).unwrap());
                    }
                },
            }
            k = k + 1;
        }
        out.push(93);
        proof {
            assert(ml.take(ml.len() as int) =~= ml);
            assert(out@ =~= old(out)@ + spec_json(Bval::List(ml)).unwrap());
        }
        Ok(())
    }

    /// Appends the braced JSON text of a dictionary.
    #[verifier::loop_isolation(false)]
    fn convert_dict(d: &Vec<(Vec<u8>, BencodeValue)>, out: &mut Vec<u8>) -> (r: Result<
        (),
        ConvertError,
    >)
        ensures
            (match r {
                Ok(u) => spec_json(Bval::Dict(model_entries(d@))) is Ok && final(out)@ == old(
                    out,
                )@ + spec_json(Bval::Dict(model_entries(d@))).unwrap(),
                Err(e) => spec_json(Bval::Dict(model_entries(d@))) == Err::<Seq<u8>, ConvertError>(
                    e,
                ),
            }),
        decreases d@, 1nat,
    {
        out.push(123);
        let ghost me = model_entries(d@);
        proof {
            lemma_model_entries(d@);
            assert(me.take(0) =~= Seq::<(Seq<u8>, Bval)>::empty());
            assert(out@ =~= old(out)@ + seq![123u8] + spec_json_pairs(me.take(0)).unwrap());
        }
        let mut k: usize = 0;
        while k < d.len()
            invariant
                0 <= k <= d@.len(),
                spec_json_pairs(me.take(k as int)) is Ok,
                out@ == old(out)@ + seq![123u8] + spec_json_pairs(me.take(k as int)).unwrap(),
            decreases d@.len() - k,
        {
            if !is_valid_utf8(d[k].0.as_slice()) {
                proof {
                    lemma_json_pairs_err(me, k as int, ConvertError::NotUtf8);
                }
                return Err(ConvertError::NotUtf8);
            }
            if k > 0 {
                out.push(44);
            }
            out.push(34);
            escape_into(&d[k].0, out);
            out.push(34);
            out.push(58);
            proof {
                assert(decreases_to!(d@ => d@[k as int]));
                assert(decreases_to!(d@[k as int] => d@[k as int].1));
            }
            match Self::convert_into(&d[k].1, out) {
                Err(e) => {
                    proof {
                        lemma_json_pairs_err(me, k as int, e);
                    }
                    return Err(e);
                },
                Ok(u) => {
                    proof {
                        assert(me.take(k as int + 1) =~= me.take(k as int).push(me[k as int]));
                        lemma_json_pairs_snoc(me.take(k as int), me[k as int]);
                        assert(out@ =~= old(out)@ + seq![123u8] + spec_json_pairs(
                            me.take(k as int + 1),
                        ).unwrap());
                    }
                },
            }
            k = k + 1;
        }
        out.push(125);
        proof {
            assert(me.take(me.len() as int) =~= me);
            assert(out@ =~= old(out)@ + spec_json(Bval::Dict(me)).unwrap());
        }
        Ok(())
    }

    /// Decodes the bytes of a textual bencode value.
    pub fn decode_bencoded_value(encoded_value: &str) -> (r: Result<BencodeValue, DecodeError>)
        ensures
            (match r {
                Ok(v) => spec_decode(encoded_value.spec_bytes()) == Ok::<Bval, DecodeError>(v@)
                    && wf(v@),
                Err(e) => spec_decode(encoded_value.spec_bytes()) == Err::<Bval, DecodeError>(e),
            }),
    {
        Self::decode_bencoded_bytes(encoded_value.as_bytes())
    }
}

} // verus!

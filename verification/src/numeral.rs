//! Hexadecimal and decimal numerals as they appear in the kernel's
//! memory-map listing: strict parsers for the numeric fields, a canonical
//! lowercase serializer for addresses, and the lemmas that make the
//! parse/serialize round trip exact.

use vstd::prelude::*;

verus! {

/// Digit of a hexadecimal numeral, either case.
pub open spec fn is_hex_digit(b: u8) -> bool {
    (48 <= b && b <= 57) || (97 <= b && b <= 102) || (65 <= b && b <= 70)
}

/// Digit of a lowercase hexadecimal numeral, the form the serializer emits.
pub open spec fn is_lower_hex_digit(b: u8) -> bool {
    (48 <= b && b <= 57) || (97 <= b && b <= 102)
}

/// Numeric value of one hexadecimal digit (0 for a non-digit).
pub open spec fn hex_digit_val(b: u8) -> nat {
    if 48 <= b && b <= 57 {
        (b - 48) as nat
    } else if 97 <= b && b <= 102 {
        (b - 87) as nat
    } else if 65 <= b && b <= 70 {
        (b - 55) as nat
    } else {
        0
    }
}

pub open spec fn all_hex_digits(s: Seq<u8>) -> bool {
    forall|i: int| 0 <= i < s.len() ==> is_hex_digit(#[trigger] s[i])
}

/// Value of a hexadecimal digit string, most significant digit first.
pub open spec fn hex_val(s: Seq<u8>) -> nat
    decreases s.len(),
{
    if s.len() == 0 {
        0
    } else {
        hex_val(s.drop_last()) * 16 + hex_digit_val(s.last())
    }
}

/// A string the hex-u64 grammar accepts: nonempty, all hex digits, value
/// within `u64`.
pub open spec fn valid_hex_u64(s: Seq<u8>) -> bool {
    s.len() > 0 && all_hex_digits(s) && hex_val(s) <= u64::MAX
}

pub open spec fn valid_hex_u32(s: Seq<u8>) -> bool {
    s.len() > 0 && all_hex_digits(s) && hex_val(s) <= u32::MAX
}

pub open spec fn is_dec_digit(b: u8) -> bool {
    48 <= b && b <= 57
}

pub open spec fn dec_digit_val(b: u8) -> nat {
    if 48 <= b && b <= 57 {
        (b - 48) as nat
    } else {
        0
    }
}

pub open spec fn all_dec_digits(s: Seq<u8>) -> bool {
    forall|i: int| 0 <= i < s.len() ==> is_dec_digit(#[trigger] s[i])
}

/// Value of a decimal digit string, most significant digit first.
pub open spec fn dec_val(s: Seq<u8>) -> nat
    decreases s.len(),
{
    if s.len() == 0 {
        0
    } else {
        dec_val(s.drop_last()) * 10 + dec_digit_val(s.last())
    }
}

/// A string the decimal-u64 grammar accepts.
pub open spec fn valid_dec_u64(s: Seq<u8>) -> bool {
    s.len() > 0 && all_dec_digits(s) && dec_val(s) <= u64::MAX
}

/// 16 to the power `n`.
pub open spec fn pow16(n: nat) -> nat
    decreases n,
{
    if n == 0 {
        1
    } else {
        16 * pow16((n - 1) as nat)
    }
}

/// The canonical rendering of a value: nonempty, lowercase digits, no
/// leading zero except for the one-digit numeral `0` itself.
pub open spec fn canonical_hex(s: Seq<u8>) -> bool {
    &&& s.len() > 0
    &&& forall|i: int| 0 <= i < s.len() ==> is_lower_hex_digit(#[trigger] s[i])
    &&& (s.len() > 1 ==> s[0] != 48)
}

/// Uppercase hex digits lowered; everything else unchanged.
pub open spec fn to_lower_byte(b: u8) -> u8 {
    if 65 <= b && b <= 70 {
        (b + 32) as u8
    } else {
        b
    }
}

/// A digit string with its uppercase digits lowered.
pub open spec fn lower_hex_of(s: Seq<u8>) -> Seq<u8> {
    s.map(|i: int, b: u8| to_lower_byte(b))
}

proof fn lemma_hex_val_take_succ(s: Seq<u8>, i: int)
    requires
        0 <= i < s.len(),
    ensures
        hex_val(s.take(i + 1)) == hex_val(s.take(i)) * 16 + hex_digit_val(s[i]),
{
    assert(s.take(i + 1).drop_last() =~= s.take(i));
    assert(s.take(i + 1).last() == s[i]);
}

proof fn lemma_hex_val_take_monotonic(s: Seq<u8>, i: int, j: int)
    requires
        0 <= i <= j <= s.len(),
    ensures
        hex_val(s.take(i)) <= hex_val(s.take(j)),
    decreases j - i,
{
    if i < j {
        lemma_hex_val_take_succ(s, i);
        lemma_hex_val_take_monotonic(s, i + 1, j);
    }
}

proof fn lemma_dec_val_take_succ(s: Seq<u8>, i: int)
    requires
        0 <= i < s.len(),
    ensures
        dec_val(s.take(i + 1)) == dec_val(s.take(i)) * 10 + dec_digit_val(s[i]),
{
    assert(s.take(i + 1).drop_last() =~= s.take(i));
    assert(s.take(i + 1).last() == s[i]);
}

proof fn lemma_dec_val_take_monotonic(s: Seq<u8>, i: int, j: int)
    requires
        0 <= i <= j <= s.len(),
    ensures
        dec_val(s.take(i)) <= dec_val(s.take(j)),
    decreases j - i,
{
    if i < j {
        lemma_dec_val_take_succ(s, i);
        lemma_dec_val_take_monotonic(s, i + 1, j);
    }
}

/// Splitting a digit string splits its value at the matching power.
pub proof fn lemma_hex_val_concat(a: Seq<u8>, b: Seq<u8>)
    ensures
        hex_val(a + b) == hex_val(a) * pow16(b.len()) + hex_val(b),
    decreases b.len(),
{
    if b.len() == 0 {
        assert(a + b =~= a);
    } else {
        let b0 = b.drop_last();
        assert((a + b).drop_last() =~= a + b0);
        lemma_hex_val_concat(a, b0);
        let ha = hex_val(a);
        let hb = hex_val(b0);
        let d = hex_digit_val(b.last());
        assert(pow16(b.len()) == 16 * pow16(b0.len()));
        assert((ha * pow16(b0.len()) + hb) * 16 + d == ha * (16 * pow16(b0.len())) + (hb * 16 + d))
            by (nonlinear_arith);
    }
}

/// Every digit string of length `n` denotes a value below `16^n`.
pub proof fn lemma_hex_val_upper(s: Seq<u8>)
    ensures
        hex_val(s) < pow16(s.len()),
    decreases s.len(),
{
    if s.len() > 0 {
        lemma_hex_val_upper(s.drop_last());
        let h = hex_val(s.drop_last());
        let p = pow16((s.len() - 1) as nat);
        assert(hex_digit_val(s.last()) <= 15);
        assert(h < p ==> h * 16 + 15 < 16 * p) by (nonlinear_arith);
    }
}

/// A digit string with a nonzero leading digit denotes at least
/// `16^(n-1)`.
pub proof fn lemma_hex_val_lower(s: Seq<u8>)
    requires
        s.len() > 0,
        hex_digit_val(s[0]) >= 1,
    ensures
        hex_val(s) >= pow16((s.len() - 1) as nat),
{
    assert(s =~= s.take(1) + s.skip(1));
    lemma_hex_val_concat(s.take(1), s.skip(1));
    assert(s.take(1).drop_last() =~= Seq::<u8>::empty());
    assert(s.take(1).len() == 1 && s.take(1).last() == s[0]);
    assert(hex_val(Seq::<u8>::empty()) == 0);
    assert(hex_val(s.take(1)) == hex_digit_val(s[0]));
    assert(s.skip(1).len() == s.len() - 1);
    let p = pow16((s.len() - 1) as nat);
    assert(hex_digit_val(s[0]) * p >= p) by (nonlinear_arith)
        requires hex_digit_val(s[0]) >= 1, p >= 0;
}

proof fn lemma_pow16_monotonic(a: nat, b: nat)
    requires
        a <= b,
    ensures
        pow16(a) <= pow16(b),
        pow16(a) >= 1,
    decreases b,
{
    if a < b {
        lemma_pow16_monotonic(a, (b - 1) as nat);
    } else if b > 0 {
        lemma_pow16_monotonic((a - 1) as nat, (b - 1) as nat);
    }
}

/// Two equal-length digit strings of equal value agree digit by digit.
proof fn lemma_hex_same_len_same_val(a: Seq<u8>, b: Seq<u8>)
    requires
        a.len() == b.len(),
        hex_val(a) == hex_val(b),
    ensures
        forall|i: int|
            0 <= i < a.len() ==> hex_digit_val(#[trigger] a[i]) == hex_digit_val(b[i]),
    decreases a.len(),
{
    if a.len() > 0 {
        let ha = hex_val(a.drop_last());
        let hb = hex_val(b.drop_last());
        let da = hex_digit_val(a.last());
        let db = hex_digit_val(b.last());
        assert(da <= 15 && db <= 15);
        assert(ha * 16 + da == hb * 16 + db && da <= 15 && db <= 15 ==> ha == hb && da == db)
            by (nonlinear_arith);
        lemma_hex_same_len_same_val(a.drop_last(), b.drop_last());
        assert forall|i: int| 0 <= i < a.len() implies hex_digit_val(#[trigger] a[i])
            == hex_digit_val(b[i]) by {
            if i < a.len() - 1 {
                assert(a.drop_last()[i] == a[i]);
                assert(b.drop_last()[i] == b[i]);
            }
        }
    }
}

/// Law: re-serializing a parsed address field reproduces its hex digits,
/// case-insensitively.  `d` is any digit string the address grammar
/// accepts in canonical form — nonempty, all hex digits, no leading zero
/// unless it is exactly "0", value within `u64` — and `r` is any canonical
/// lowercase rendering of the same value, such as the one `to_hex_bytes`
/// returns for the value `parse_hex_u64` read from `d`.  Then `r` is `d`
/// itself with uppercase digits lowered.  A digit string with redundant
/// leading zeros is the one admitted input this does not cover: its
/// canonical rendering is shorter than the input.
pub proof fn lemma_hex_round_trip(d: Seq<u8>, r: Seq<u8>)
    requires
        d.len() > 0,
        all_hex_digits(d),
        d.len() > 1 ==> d[0] != 48,
        hex_val(d) <= u64::MAX,
        canonical_hex(r),
        hex_val(r) == hex_val(d),
    ensures
        r == lower_hex_of(d),
{
    // The two strings have the same length: a leading nonzero digit forces
    // a lower bound that the shorter string's upper bound cannot meet.
    assert(is_hex_digit(d[0]));
    if d.len() > 1 && d[0] != 48 {
        assert(hex_digit_val(d[0]) >= 1);
    }
    if r.len() > 1 {
        assert(is_lower_hex_digit(r[0]) && r[0] != 48);
        assert(hex_digit_val(r[0]) >= 1);
    }
    if r.len() < d.len() {
        // then d.len() > 1, so d has a nonzero leading digit
        lemma_hex_val_lower(d);
        lemma_hex_val_upper(r);
        lemma_pow16_monotonic(r.len(), (d.len() - 1) as nat);
        assert(false);
    }
    if r.len() > d.len() {
        // then r.len() > 1, so r has a nonzero leading digit
        lemma_hex_val_lower(r);
        lemma_hex_val_upper(d);
        lemma_pow16_monotonic(d.len(), (r.len() - 1) as nat);
        assert(false);
    }
    lemma_hex_same_len_same_val(r, d);
    assert forall|i: int| 0 <= i < r.len() implies r[i] == lower_hex_of(d)[i] by {
        assert(hex_digit_val(r[i]) == hex_digit_val(d[i]));
        assert(is_lower_hex_digit(r[i]));
        assert(is_hex_digit(d[i]));
        assert(is_lower_hex_digit(to_lower_byte(d[i])));
        assert(hex_digit_val(to_lower_byte(d[i])) == hex_digit_val(d[i]));
    }
    assert(r =~= lower_hex_of(d));
}

/// Value and classification of one hexadecimal digit byte.
fn hex_digit(b: u8) -> (r: Option<u8>)
    ensures
        r is Some <==> is_hex_digit(b),
        r is Some ==> r->0 == hex_digit_val(b) && r->0 < 16,
{
    if 48 <= b && b <= 57 {
        Some(b - 48)
    } else if 97 <= b && b <= 102 {
        Some(b - 87)
    } else if 65 <= b && b <= 70 {
        Some(b - 55)
    } else {
        None
    }
}

/// Strict hexadecimal u64 parser: accepts exactly the nonempty all-digit
/// strings whose value fits, and returns that value.
pub fn parse_hex_u64(s: &[u8]) -> (r: Option<u64>)
    ensures
        r is Some <==> valid_hex_u64(s@),
        r is Some ==> r->0 == hex_val(s@),
{
    if s.len() == 0 {
        return None;
    }
    let mut acc: u64 = 0;
    let mut i: usize = 0;
    while i < s.len()
        invariant
            0 <= i <= s@.len(),
            all_hex_digits(s@.take(i as int)),
            acc == hex_val(s@.take(i as int)),
        decreases s@.len() - i,
    {
        let b = s[i];
        match hex_digit(b) {
            None => {
                assert(!all_hex_digits(s@));
                return None;
            },
            Some(d) => {
                proof {
                    lemma_hex_val_take_succ(s@, i as int);
                }
                let shifted = match acc.checked_mul(16) {
                    Some(m) => m.checked_add(d as u64),
                    None => None,
                };
                match shifted {
                    None => {
                        proof {
                            assert(hex_val(s@.take(i + 1)) > u64::MAX);
                            lemma_hex_val_take_monotonic(s@, i + 1, s@.len() as int);
                            assert(s@.take(s@.len() as int) =~= s@);
                        }
                        return None;
                    },
                    Some(next) => {
                        proof {
                            assert(s@.take(i + 1) =~= s@.take(i as int).push(s@[i as int]));
                            assert(all_hex_digits(s@.take(i + 1)));
                        }
                        acc = next;
                        i = i + 1;
                    },
                }
            },
        }
    }
    proof {
        assert(s@.take(s@.len() as int) =~= s@);
    }
    Some(acc)
}

/// Strict hexadecimal u32 parser, for the device numbers.
pub fn parse_hex_u32(s: &[u8]) -> (r: Option<u32>)
    ensures
        r is Some <==> valid_hex_u32(s@),
        r is Some ==> r->0 == hex_val(s@),
{
    match parse_hex_u64(s) {
        None => None,
        Some(v) => {
            if v <= 0xFFFF_FFFF {
                Some(v as u32)
            } else {
                None
            }
        },
    }
}

/// Strict decimal u64 parser, for the inode field.
pub fn parse_dec_u64(s: &[u8]) -> (r: Option<u64>)
    ensures
        r is Some <==> valid_dec_u64(s@),
        r is Some ==> r->0 == dec_val(s@),
{
    if s.len() == 0 {
        return None;
    }
    let mut acc: u64 = 0;
    let mut i: usize = 0;
    while i < s.len()
        invariant
            0 <= i <= s@.len(),
            all_dec_digits(s@.take(i as int)),
            acc == dec_val(s@.take(i as int)),
        decreases s@.len() - i,
    {
        let b = s[i];
        if b < 48 || b > 57 {
            assert(!all_dec_digits(s@));
            return None;
        }
        let d = b - 48;
        proof {
            lemma_dec_val_take_succ(s@, i as int);
        }
        let shifted = match acc.checked_mul(10) {
            Some(m) => m.checked_add(d as u64),
            None => None,
        };
        match shifted {
            None => {
                proof {
                    assert(dec_val(s@.take(i + 1)) > u64::MAX);
                    lemma_dec_val_take_monotonic(s@, i + 1, s@.len() as int);
                    assert(s@.take(s@.len() as int) =~= s@);
                }
                return None;
            },
            Some(next) => {
                proof {
                    assert(s@.take(i + 1) =~= s@.take(i as int).push(s@[i as int]));
                    assert(all_dec_digits(s@.take(i + 1)));
                }
                acc = next;
                i = i + 1;
            },
        }
    }
    proof {
        assert(s@.take(s@.len() as int) =~= s@);
    }
    Some(acc)
}

/// The lowercase digit byte of one value below 16.
fn lower_hex_digit(v: u64) -> (b: u8)
    requires
        v < 16,
    ensures
        is_lower_hex_digit(b),
        hex_digit_val(b) == v,
{
    if v < 10 {
        48 + v as u8
    } else {
        87 + v as u8
    }
}

/// Canonical lowercase hexadecimal rendering of a value: no leading
/// zeros, "0" for zero.  Together with `lemma_hex_round_trip` this pins
/// the parse/serialize round trip.
pub fn to_hex_bytes(v: u64) -> (r: Vec<u8>)
    ensures
        canonical_hex(r@),
        hex_val(r@) == v,
{
    if v == 0 {
        let mut r: Vec<u8> = Vec::new();
        r.push(48);
        proof {
            assert(r@.drop_last() =~= Seq::<u8>::empty());
            assert(r@.len() == 1 && r@.last() == 48u8);
            assert(hex_val(Seq::<u8>::empty()) == 0);
            assert(hex_val(r@) == 0);
        }
        return r;
    }
    let mut digits: Vec<u8> = Vec::new();
    let mut rem: u64 = v;
    proof {
        assert(digits@.reverse() =~= Seq::<u8>::empty());
        assert(hex_val(Seq::<u8>::empty()) == 0);
        assert(pow16(0) == 1);
    }
    while rem > 0
        invariant
            v as nat == rem as nat * pow16(digits@.len()) + hex_val(digits@.reverse()),
            forall|i: int|
                0 <= i < digits@.len() ==> is_lower_hex_digit(#[trigger] digits@[i]),
            rem == 0 ==> digits@.len() > 0 && hex_digit_val(digits@.last()) != 0,
        decreases rem,
    {
        let ghost old_digits = digits@;
        let ghost old_rem = rem as nat;
        let d = rem % 16;
        let b = lower_hex_digit(d);
        digits.push(b);
        rem = rem / 16;
        proof {
            assert(digits@.reverse() =~= seq![b] + old_digits.reverse());
            lemma_hex_val_concat(seq![b], old_digits.reverse());
            assert(seq![b].drop_last() =~= Seq::<u8>::empty());
            assert(seq![b].len() == 1 && seq![b].last() == b);
            assert(hex_val(Seq::<u8>::empty()) == 0);
            assert(hex_val(seq![b]) == d as nat);
            assert(old_digits.reverse().len() == old_digits.len());
            assert(pow16(digits@.len()) == 16 * pow16(old_digits.len()));
            assert(old_rem == (rem as nat) * 16 + (d as nat));
            assert((rem as nat * 16 + d as nat) * pow16(old_digits.len()) == rem as nat * (16
                * pow16(old_digits.len())) + d as nat * pow16(old_digits.len()))
                by (nonlinear_arith);
            if rem == 0 {
                assert(hex_digit_val(digits@.last()) == d as nat);
                assert(d as nat == old_rem);
            }
        }
    }
    let n = digits.len();
    let mut out: Vec<u8> = Vec::new();
    let mut j: usize = 0;
    while j < n
        invariant
            n == digits@.len(),
            0 <= j <= n,
            out@.len() == j,
            forall|k: int| 0 <= k < j ==> out@[k] == digits@[n - 1 - k],
        decreases n - j,
    {
        out.push(digits[n - 1 - j]);
        j = j + 1;
    }
    proof {
        assert(out@ =~= digits@.reverse());
        assert(out@[0] == digits@.last());
        assert(hex_digit_val(out@[0]) != 0);
        assert(out@[0] != 48);
    }
    out
}

} // verus!

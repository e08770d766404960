//! A plain-text serialization of the access state, with a proved
//! round trip: decoding an encoded world yields the world back.
//!
//! Numbers are written in decimal, strings with a character count in
//! front, and every piece is self-delimiting, which keeps the state
//! file diffable by hand.

use vstd::prelude::*;
use vstd::string::StringExecFns;

use crate::order::views_of;
use crate::types::{
    Device, DeviceOverride, DeviceView, EntryView, GuestPath, Schedule, ScheduleEntry, World,
    WorldView,
};

verus! {

/// Whether `c` is a decimal digit.
pub open spec fn is_digit_char(c: char) -> bool {
    ('0' as u32) <= (c as u32) && (c as u32) <= ('9' as u32)
}

/// The numeric value of a digit character.
pub open spec fn char_digit(c: char) -> nat {
    ((c as u32) - ('0' as u32)) as nat
}

/// The digit character of a value below ten.
pub open spec fn digit_char(d: nat) -> char {
    if d == 0 {
        '0'
    } else if d == 1 {
        '1'
    } else if d == 2 {
        '2'
    } else if d == 3 {
        '3'
    } else if d == 4 {
        '4'
    } else if d == 5 {
        '5'
    } else if d == 6 {
        '6'
    } else if d == 7 {
        '7'
    } else if d == 8 {
        '8'
    } else {
        '9'
    }
}

/// The decimal digits of `n`, most significant first.
pub open spec fn dec_digits(n: nat) -> Seq<char>
    decreases n,
{
    if n < 10 {
        seq![digit_char(n)]
    } else {
        dec_digits(n / 10).push(digit_char(n % 10))
    }
}

/// The value of a sequence of digit characters.
pub open spec fn digits_val(ds: Seq<char>) -> nat
    decreases ds.len(),
{
    if ds.len() == 0 {
        0
    } else {
        digits_val(ds.drop_last()) * 10 + char_digit(ds.last())
    }
}

/// Powers of ten.
pub open spec fn pow10(k: nat) -> nat
    decreases k,
{
    if k == 0 {
        1
    } else {
        10 * pow10((k - 1) as nat)
    }
}

/// The end of the run of digit characters starting at `i`.
pub open spec fn digit_run_end(s: Seq<char>, i: int) -> int
    decreases s.len() - i,
{
    if i < 0 || i >= s.len() || !is_digit_char(s[i]) {
        i
    } else {
        digit_run_end(s, i + 1)
    }
}

/// Decoding a decimal number at position `i`: the value of the digit
/// run starting there, refused when the run is empty, longer than any
/// encoding this crate writes, or out of range.
pub open spec fn spec_dec_u64(s: Seq<char>, i: int) -> Option<(u64, int)> {
    let e = digit_run_end(s, i);
    if e == i {
        None
    } else {
        let ds = s.subrange(i, e);
        if ds.len() > 20 {
            None
        } else if digits_val(ds) > u64::MAX {
            None
        } else {
            Some((digits_val(ds) as u64, e))
        }
    }
}

proof fn lemma_digit_char_inverse(d: nat)
    requires
        d < 10,
    ensures
        is_digit_char(digit_char(d)),
        char_digit(digit_char(d)) == d,
{
}

/// Every character of an encoding is a digit.
proof fn lemma_digits_are_digits(n: nat)
    ensures
        dec_digits(n).len() >= 1,
        forall|j: int|
            0 <= j < dec_digits(n).len() ==> is_digit_char(#[trigger] dec_digits(n)[j]),
    decreases n,
{
    if n < 10 {
        lemma_digit_char_inverse(n);
    } else {
        lemma_digits_are_digits(n / 10);
        lemma_digit_char_inverse(n % 10);
        let ds = dec_digits(n);
        assert forall|j: int| 0 <= j < ds.len() implies is_digit_char(#[trigger] ds[j]) by {
            if j < ds.len() - 1 {
                assert(ds[j] == dec_digits(n / 10)[j]);
            }
        }
    }
}

/// The value of an encoding is the number it encodes.
proof fn lemma_digits_val_enc(n: nat)
    ensures
        digits_val(dec_digits(n)) == n,
    decreases n,
{
    if n < 10 {
        let ds = dec_digits(n);
        assert(ds.drop_last() =~= Seq::<char>::empty());
        assert(digits_val(Seq::<char>::empty()) == 0);
        lemma_digit_char_inverse(n);
        assert(digits_val(ds) == digits_val(ds.drop_last()) * 10 + char_digit(ds.last()));
    } else {
        lemma_digits_val_enc(n / 10);
        let ds = dec_digits(n);
        assert(ds.drop_last() =~= dec_digits(n / 10));
        lemma_digit_char_inverse(n % 10);
    }
}

/// An encoding is no longer than its number demands: the number is at
/// least the power of ten of every extra digit.
proof fn lemma_digits_len(n: nat)
    ensures
        n < pow10(dec_digits(n).len()),
        dec_digits(n).len() >= 2 ==> n >= pow10((dec_digits(n).len() - 1) as nat),
    decreases n,
{
    if n < 10 {
        assert(pow10(0) == 1);
        assert(pow10(1) == 10);
    } else {
        lemma_digits_len(n / 10);
        let l = dec_digits(n / 10).len();
        assert(n / 10 < pow10(l));
        assert(n <= 10 * (n / 10) + 9);
        assert(10 * (n / 10) + 9 < 10 * pow10(l));
        assert(pow10(l + 1) == 10 * pow10(l));
        if l >= 2 {
            assert(n / 10 >= pow10((l - 1) as nat));
            assert(n >= 10 * (n / 10));
            assert(10 * (n / 10) >= 10 * pow10((l - 1) as nat));
        } else {
            assert(l == 1);
            assert(n >= 10);
            assert(pow10(1) == 10);
        }
    }
}

/// A 64-bit value never takes more than twenty digits.
proof fn lemma_digits_len_u64(n: u64)
    ensures
        dec_digits(n as nat).len() <= 20,
{
    lemma_digits_len(n as nat);
    let l = dec_digits(n as nat).len();
    if l >= 21 {
        assert(n as nat >= pow10((l - 1) as nat));
        lemma_pow10_mono(20, (l - 1) as nat);
        lemma_pow10_20();
        assert(n as nat >= pow10(20));
        assert(false);
    }
}

proof fn lemma_pow10_mono(a: nat, b: nat)
    requires
        a <= b,
    ensures
        pow10(a) <= pow10(b),
    decreases b,
{
    if a < b {
        lemma_pow10_mono(a, (b - 1) as nat);
        assert(pow10(b) == 10 * pow10((b - 1) as nat));
    }
}

proof fn lemma_pow10_20()
    ensures
        pow10(20) > u64::MAX as nat,
{
    reveal_with_fuel(pow10, 21);
    assert(pow10(20) == 100000000000000000000);
}

/// A digit run covering exactly a block of digits ends at the block's
/// end.
proof fn lemma_digit_run(s: Seq<char>, i: int, e: int)
    requires
        0 <= i <= e <= s.len(),
        forall|j: int| i <= j < e ==> is_digit_char(#[trigger] s[j]),
        e == s.len() || !is_digit_char(s[e]),
    ensures
        digit_run_end(s, i) == e,
    decreases e - i,
{
    if i < e {
        lemma_digit_run(s, i + 1, e);
    }
}

/// The value of a block of digit characters is bounded by the power of
/// ten of its length.
proof fn lemma_digits_val_bound(ds: Seq<char>)
    requires
        forall|j: int| 0 <= j < ds.len() ==> is_digit_char(#[trigger] ds[j]),
    ensures
        digits_val(ds) < pow10(ds.len()),
    decreases ds.len(),
{
    if ds.len() == 0 {
        assert(pow10(0) == 1);
    } else {
        lemma_digits_val_bound(ds.drop_last());
        assert(char_digit(ds.last()) <= 9);
        assert(pow10(ds.len()) == 10 * pow10((ds.len() - 1) as nat));
    }
}

/// Every character of a digit run is a digit, and the run stays within
/// the sequence.
proof fn lemma_run_digits(s: Seq<char>, i: int)
    requires
        0 <= i <= s.len(),
    ensures
        i <= digit_run_end(s, i) <= s.len(),
        forall|j: int| i <= j < digit_run_end(s, i) ==> is_digit_char(#[trigger] s[j]),
    decreases s.len() - i,
{
    if i < s.len() && is_digit_char(s[i]) {
        lemma_run_digits(s, i + 1);
    }
}

/// The concrete value of the twentieth power of ten.
proof fn lemma_pow10_20_value()
    ensures
        pow10(20) == 100000000000000000000,
{
    reveal_with_fuel(pow10, 21);
}

/// Append one digit to `dest`.
fn append_digit(d: u64, dest: &mut String)
    requires
        d < 10,
    ensures
        final(dest)@ == old(dest)@ + seq![digit_char(d as nat)],
{
    let digits = "0123456789";
    proof {
        reveal_strlit("0123456789");
    }
    let piece = digits.substring_char(d as usize, d as usize + 1);
    proof {
        assert(piece@ =~= seq![digit_char(d as nat)]);
    }
    dest.append(piece);
}

/// Append the decimal encoding of `n` to `dest`.
pub fn enc_u64_into(n: u64, dest: &mut String)
    ensures
        final(dest)@ == old(dest)@ + dec_digits(n as nat),
    decreases n,
{
    if n < 10 {
        append_digit(n, dest);
    } else {
        enc_u64_into(n / 10, dest);
        append_digit(n % 10, dest);
        proof {
            assert(dest@ =~= old(dest)@ + dec_digits(n as nat));
        }
    }
}

/// Scan to the end of the run of digit characters starting at `i`.
fn exec_digit_run_end(s: &str, i: usize, len: usize) -> (r: usize)
    requires
        len == s@.len(),
        i <= len,
    ensures
        i <= r <= len,
        digit_run_end(s@, i as int) == r as int,
{
    let mut j = i;
    while j < len
        invariant
            i <= j <= len,
            len == s@.len(),
            digit_run_end(s@, i as int) == digit_run_end(s@, j as int),
        decreases len - j,
    {
        let c = s.get_char(j);
        let d = c as u32;
        if d < 48 || d > 57 {
            proof {
                assert(!is_digit_char(s@[j as int]));
            }
            return j;
        }
        j = j + 1;
    }
    j
}

/// Decode a decimal number at position `pos`.
pub fn dec_u64_at(s: &str, pos: usize, len: usize) -> (r: Option<(u64, usize)>)
    requires
        len == s@.len(),
        pos <= len,
    ensures
        (match (r, spec_dec_u64(s@, pos as int)) {
            (Some((n, e)), Some((n2, e2))) => n == n2 && e as int == e2 && pos < e <= len,
            (None, None) => true,
            _ => false,
        }),
{
    let e = exec_digit_run_end(s, pos, len);
    proof {
        lemma_run_digits(s@, pos as int);
    }
    if e == pos {
        return None;
    }
    if e - pos > 20 {
        proof {
            assert(s@.subrange(pos as int, e as int).len() > 20);
        }
        return None;
    }
    let mut acc: u128 = 0;
    let mut j = pos;
    proof {
        assert(s@.subrange(pos as int, pos as int) =~= Seq::<char>::empty());
    }
    while j < e
        invariant
            pos <= j <= e <= len,
            e - pos <= 20,
            len == s@.len(),
            digit_run_end(s@, pos as int) == e as int,
            forall|q: int| pos <= q < e ==> is_digit_char(#[trigger] s@[q]),
            acc == digits_val(s@.subrange(pos as int, j as int)),
        decreases e - j,
    {
        let c = s.get_char(j);
        let d = (c as u32) - 48;
        let ghost before = s@.subrange(pos as int, j as int);
        proof {
            assert(is_digit_char(s@[j as int]));
            assert(char_digit(s@[j as int]) == d as nat);
            let after = s@.subrange(pos as int, j as int + 1);
            assert(after.drop_last() =~= before);
            assert(after.last() == s@[j as int]);
            assert(before.len() <= 19);
            lemma_digits_val_bound(before);
            lemma_pow10_mono(before.len(), 19);
            lemma_pow10_20_value();
            assert(pow10(20) == 10 * pow10(19));
            assert(digits_val(before) < pow10(19));
            assert(acc * 10 + (d as u128) < 0xffffffffffffffffffffffffffffffffu128);
        }
        acc = acc * 10 + (d as u128);
        j = j + 1;
    }
    proof {
        assert(s@.subrange(pos as int, e as int).len() == e - pos);
    }
    if acc > 0xffffffffffffffffu128 {
        proof {
            assert(digits_val(s@.subrange(pos as int, e as int)) > u64::MAX);
        }
        return None;
    }
    Some((acc as u64, e))
}

/// Decoding reads back exactly the number an encoding wrote, when the
/// character after the encoding is not a digit.
proof fn lemma_dec_enc_u64(s: Seq<char>, i: int, n: u64)
    requires
        0 <= i,
        i + dec_digits(n as nat).len() <= s.len(),
        s.subrange(i, i + dec_digits(n as nat).len()) == dec_digits(n as nat),
        i + dec_digits(n as nat).len() == s.len() || !is_digit_char(
            s[i + dec_digits(n as nat).len()],
        ),
    ensures
        spec_dec_u64(s, i) == Some((n, i + dec_digits(n as nat).len())),
{
    let ds = dec_digits(n as nat);
    let e = i + ds.len();
    lemma_digits_are_digits(n as nat);
    assert forall|j: int| i <= j < e implies is_digit_char(#[trigger] s[j]) by {
        assert(s[j] == ds[j - i]);
    }
    lemma_digit_run(s, i, e);
    lemma_digits_val_enc(n as nat);
    lemma_digits_len_u64(n);
    assert(s.subrange(i, e) == ds);
}


/// The encoding of a signed timestamp: a sign for negative values, then
/// the decimal magnitude.
pub open spec fn enc_i64(n: i64) -> Seq<char> {
    if n < 0 {
        seq!['-'] + dec_digits((-(n as int)) as nat)
    } else {
        dec_digits(n as nat)
    }
}

/// Decoding a signed timestamp.
pub open spec fn spec_dec_i64(s: Seq<char>, i: int) -> Option<(i64, int)> {
    if 0 <= i < s.len() && s[i] == '-' {
        match spec_dec_u64(s, i + 1) {
            Some((m, e)) => if 1 <= m <= 0x8000000000000000u64 {
                Some(((-(m as int)) as i64, e))
            } else {
                None
            },
            None => None,
        }
    } else {
        match spec_dec_u64(s, i) {
            Some((m, e)) => if m <= (i64::MAX as u64) {
                Some((m as i64, e))
            } else {
                None
            },
            None => None,
        }
    }
}

/// The encoding of an optional expiry: permanent entries write one
/// letter, bounded ones the letter and the timestamp, each closed by a
/// line break.
pub open spec fn enc_bound(b: Option<i64>) -> Seq<char> {
    match b {
        None => seq!['P', '\n'],
        Some(t) => seq!['T'] + enc_i64(t) + seq!['\n'],
    }
}

/// Decoding an optional expiry.
pub open spec fn spec_dec_bound(s: Seq<char>, i: int) -> Option<(Option<i64>, int)> {
    if i < 0 || i >= s.len() {
        None
    } else if s[i] == 'P' {
        if i + 1 < s.len() && s[i + 1] == '\n' {
            Some((None, i + 2))
        } else {
            None
        }
    } else if s[i] == 'T' {
        match spec_dec_i64(s, i + 1) {
            Some((t, e)) => if e < s.len() && s[e] == '\n' {
                Some((Some(t), e + 1))
            } else {
                None
            },
            None => None,
        }
    } else {
        None
    }
}

/// The encoding of a string: its character count, a colon, and the
/// characters themselves.
pub open spec fn enc_str(t: Seq<char>) -> Seq<char> {
    dec_digits(t.len()) + seq![':'] + t
}

/// Decoding a string.
pub open spec fn spec_dec_str(s: Seq<char>, i: int) -> Option<(Seq<char>, int)> {
    match spec_dec_u64(s, i) {
        Some((l, e)) => if e < s.len() && s[e] == ':' && e + 1 + l <= s.len() {
            Some((s.subrange(e + 1, e + 1 + l), e + 1 + l))
        } else {
            None
        },
        None => None,
    }
}

/// Append the encoding of a signed timestamp to `dest`.
pub fn enc_i64_into(n: i64, dest: &mut String)
    ensures
        final(dest)@ == old(dest)@ + enc_i64(n),
{
    if n < 0 {
        dest.append("-");
        proof {
            reveal_strlit("-");
            assert("-"@ =~= seq!['-']);
        }
        let m: u64 = (-(n as i128)) as u64;
        proof {
            assert(m as nat == (-(n as int)) as nat);
        }
        enc_u64_into(m, dest);
        proof {
            assert(dest@ =~= old(dest)@ + enc_i64(n));
        }
    } else {
        enc_u64_into(n as u64, dest);
    }
}

/// Decode a signed timestamp at position `pos`.
pub fn dec_i64_at(s: &str, pos: usize, len: usize) -> (r: Option<(i64, usize)>)
    requires
        len == s@.len(),
        pos <= len,
    ensures
        (match (r, spec_dec_i64(s@, pos as int)) {
            (Some((n, e)), Some((n2, e2))) => n == n2 && e as int == e2 && pos < e <= len,
            (None, None) => true,
            _ => false,
        }),
{
    if pos < len {
        let c = s.get_char(pos);
        if c == '-' {
            let inner = dec_u64_at(s, pos + 1, len);
            match inner {
                Some((m, e)) => {
                    if 1 <= m && m <= 0x8000000000000000u64 {
                        let v: i64 = (-(m as i128)) as i64;
                        proof {
                            assert(v as int == -(m as int));
                        }
                        return Some((v, e));
                    } else {
                        return None;
                    }
                },
                None => {
                    return None;
                },
            }
        }
    }
    let inner = dec_u64_at(s, pos, len);
    match inner {
        Some((m, e)) => if m <= (i64::MAX as u64) {
            Some((m as i64, e))
        } else {
            None
        },
        None => None,
    }
}

/// Append the encoding of an optional expiry to `dest`.
pub fn enc_bound_into(b: Option<i64>, dest: &mut String)
    ensures
        final(dest)@ == old(dest)@ + enc_bound(b),
{
    match b {
        None => {
            dest.append("P\n");
            proof {
                reveal_strlit("P\n");
                assert(dest@ =~= old(dest)@ + enc_bound(b));
            }
        },
        Some(t) => {
            dest.append("T");
            proof {
                reveal_strlit("T");
            }
            enc_i64_into(t, dest);
            dest.append("\n");
            proof {
                reveal_strlit("\n");
                assert(dest@ =~= old(dest)@ + enc_bound(b));
            }
        },
    }
}

/// Decode an optional expiry at position `pos`.
pub fn dec_bound_at(s: &str, pos: usize, len: usize) -> (r: Option<(Option<i64>, usize)>)
    requires
        len == s@.len(),
        pos <= len,
    ensures
        (match (r, spec_dec_bound(s@, pos as int)) {
            (Some((b, e)), Some((b2, e2))) => b == b2 && e as int == e2 && pos < e <= len,
            (None, None) => true,
            _ => false,
        }),
{
    if pos >= len {
        return None;
    }
    let c = s.get_char(pos);
    if c == 'P' {
        if pos + 1 < len {
            let c2 = s.get_char(pos + 1);
            if c2 == '\n' {
                return Some((None, pos + 2));
            }
        }
        return None;
    }
    if c == 'T' {
        let inner = dec_i64_at(s, pos + 1, len);
        match inner {
            Some((t, e)) => {
                if e < len {
                    let c2 = s.get_char(e);
                    if c2 == '\n' {
                        return Some((Some(t), e + 1));
                    }
                }
                None
            },
            None => None,
        }
    } else {
        None
    }
}

/// Append the encoding of a string to `dest`.
pub fn enc_str_into(t: &str, dest: &mut String)
    ensures
        final(dest)@ == old(dest)@ + enc_str(t@),
{
    let l = t.unicode_len();
    enc_u64_into(l as u64, dest);
    dest.append(":");
    dest.append(t);
    proof {
        reveal_strlit(":");
        assert((l as u64) as nat == t@.len());
        assert(dest@ =~= old(dest)@ + enc_str(t@));
    }
}

/// Decode a string at position `pos`.
pub fn dec_str_at(s: &str, pos: usize, len: usize) -> (r: Option<(String, usize)>)
    requires
        len == s@.len(),
        pos <= len,
    ensures
        (match (r, spec_dec_str(s@, pos as int)) {
            (Some((t, e)), Some((t2, e2))) => t@ == t2 && e as int == e2 && pos < e <= len,
            (None, None) => true,
            _ => false,
        }),
{
    let inner = dec_u64_at(s, pos, len);
    match inner {
        Some((l, e)) => {
            if e < len {
                let c = s.get_char(e);
                if c == ':' {
                    if l <= (len - (e + 1)) as u64 {
                        let lu = l as usize;
                        let piece = s.substring_char(e + 1, e + 1 + lu);
                        proof {
                            assert(e as int + 1 + l as int <= len as int);
                        }
                        return Some((piece.to_owned(), e + 1 + lu));
                    }
                    return None;
                }
                return None;
            }
            None
        },
        None => None,
    }
}

/// Decoding reads back exactly the timestamp an encoding wrote, when
/// the character after the encoding is not a digit.
proof fn lemma_dec_enc_i64(s: Seq<char>, i: int, n: i64)
    requires
        0 <= i,
        i + enc_i64(n).len() <= s.len(),
        s.subrange(i, i + enc_i64(n).len()) == enc_i64(n),
        i + enc_i64(n).len() == s.len() || !is_digit_char(s[i + enc_i64(n).len()]),
    ensures
        spec_dec_i64(s, i) == Some((n, i + enc_i64(n).len())),
{
    let enc = enc_i64(n);
    if n < 0 {
        let m = (-(n as int)) as nat;
        let ds = dec_digits(m);
        assert(enc == seq!['-'] + ds);
        assert(s.subrange(i, i + enc.len() as int)[0] == s[i]);
        assert(enc[0] == '-');
        assert(s[i] == '-');
        assert forall|j: int| 0 <= j < ds.len() implies s[i + 1 + j] == ds[j] by {
            assert(s.subrange(i, i + enc.len() as int)[1 + j] == s[i + 1 + j]);
            assert(enc[1 + j] == ds[j]);
        }
        assert(s.subrange(i + 1, i + 1 + ds.len() as int) =~= ds);
        assert(m <= 0x8000000000000000);
        lemma_dec_enc_u64(s, i + 1, m as u64);
    } else {
        let ds = dec_digits(n as nat);
        lemma_digits_are_digits(n as nat);
        assert(s.subrange(i, i + enc.len() as int)[0] == s[i]);
        assert(s[i] == ds[0]);
        assert(is_digit_char(s[i]));
        assert(s[i] != '-');
        lemma_dec_enc_u64(s, i, n as u64);
    }
}

/// Decoding reads back exactly the optional expiry an encoding wrote.
proof fn lemma_dec_enc_bound(s: Seq<char>, i: int, b: Option<i64>)
    requires
        0 <= i,
        i + enc_bound(b).len() <= s.len(),
        s.subrange(i, i + enc_bound(b).len()) == enc_bound(b),
    ensures
        spec_dec_bound(s, i) == Some((b, i + enc_bound(b).len())),
{
    let enc = enc_bound(b);
    match b {
        None => {
            assert(s.subrange(i, i + enc.len() as int)[0] == s[i]);
            assert(enc[0] == 'P');
            assert(s[i] == 'P');
            assert(s.subrange(i, i + enc.len() as int)[1] == s[i + 1]);
            assert(enc[1] == '\n');
            assert(s[i + 1] == '\n');
        },
        Some(t) => {
            let et = enc_i64(t);
            let el = et.len() as int;
            assert(enc == seq!['T'] + et + seq!['\n']);
            assert(s.subrange(i, i + enc.len() as int)[0] == s[i]);
            assert(enc[0] == 'T');
            assert(s[i] == 'T');
            assert forall|j: int| 0 <= j < el implies s[i + 1 + j] == et[j] by {
                assert(s.subrange(i, i + enc.len() as int)[1 + j] == s[i + 1 + j]);
                assert(enc[1 + j] == et[j]);
            }
            assert(s.subrange(i + 1, i + 1 + el) =~= et);
            assert(s.subrange(i, i + enc.len() as int)[1 + el] == s[i + 1 + el]);
            assert(enc[1 + el] == '\n');
            assert(s[i + 1 + el] == '\n');
            assert(!is_digit_char('\n'));
            lemma_dec_enc_i64(s, i + 1, t);
            assert(s[i] != 'P');
        },
    }
}

/// Decoding reads back exactly the string an encoding wrote.
proof fn lemma_dec_enc_str(s: Seq<char>, i: int, t: Seq<char>)
    requires
        0 <= i,
        t.len() <= u64::MAX,
        i + enc_str(t).len() <= s.len(),
        s.subrange(i, i + enc_str(t).len()) == enc_str(t),
    ensures
        spec_dec_str(s, i) == Some((t, i + enc_str(t).len())),
{
    let l = t.len() as u64;
    let ds = dec_digits(t.len());
    let enc = enc_str(t);
    let dl = ds.len() as int;
    assert(enc == ds + seq![':'] + t);
    assert forall|j: int| 0 <= j < dl implies s[i + j] == ds[j] by {
        assert(s.subrange(i, i + enc.len() as int)[j] == s[i + j]);
        assert(enc[j] == ds[j]);
    }
    assert(s.subrange(i, i + dl) =~= ds);
    assert(s.subrange(i, i + enc.len() as int)[dl] == s[i + dl]);
    assert(enc[dl] == ':');
    assert(s[i + dl] == ':');
    assert(!is_digit_char(':'));
    lemma_dec_enc_u64(s, i, l);
    let e = i + dl;
    assert forall|j: int| 0 <= j < t.len() implies s[e + 1 + j] == t[j] by {
        assert(s.subrange(i, i + enc.len() as int)[dl + 1 + j] == s[i + dl + 1 + j]);
        assert(enc[dl + 1 + j] == t[j]);
    }
    assert(s.subrange(e + 1, e + 1 + t.len() as int) =~= t);
}


/// A subrange holding a concatenation splits into subranges holding the
/// parts.
proof fn lemma_subrange_split(s: Seq<char>, i: int, a: Seq<char>, b: Seq<char>)
    requires
        0 <= i,
        i + a.len() + b.len() <= s.len(),
        s.subrange(i, i + a.len() + b.len()) == a + b,
    ensures
        s.subrange(i, i + a.len()) == a,
        s.subrange(i + a.len(), i + a.len() + b.len()) == b,
{
    assert forall|j: int| 0 <= j < a.len() implies s[i + j] == a[j] by {
        assert(s.subrange(i, i + a.len() + b.len())[j] == s[i + j]);
        assert((a + b)[j] == a[j]);
    }
    assert(s.subrange(i, i + a.len()) =~= a);
    assert forall|j: int| 0 <= j < b.len() implies s[i + a.len() + j] == b[j] by {
        assert(s.subrange(i, i + a.len() + b.len())[a.len() + j] == s[i + a.len() + j]);
        assert((a + b)[a.len() + j] == b[j]);
    }
    assert(s.subrange(i + a.len(), i + a.len() + b.len()) =~= b);
}

/// The encoding of a device: its name, then its address.
pub open spec fn enc_device(d: DeviceView) -> Seq<char> {
    enc_str(d.name) + enc_str(d.mac)
}

/// Decoding a device.
pub open spec fn spec_dec_device(s: Seq<char>, i: int) -> Option<(DeviceView, int)> {
    match spec_dec_str(s, i) {
        Some((name, e1)) => match spec_dec_str(s, e1) {
            Some((mac, e2)) => Some((DeviceView { name, mac }, e2)),
            None => None,
        },
        None => None,
    }
}

/// The encoding of an open-device entry: the device, then its expiry.
pub open spec fn enc_entry(e: EntryView<DeviceView>) -> Seq<char> {
    enc_device(e.item) + enc_bound(e.time_bound)
}

/// Decoding an open-device entry.
pub open spec fn spec_dec_entry(s: Seq<char>, i: int) -> Option<(EntryView<DeviceView>, int)> {
    match spec_dec_device(s, i) {
        Some((d, e1)) => match spec_dec_bound(s, e1) {
            Some((b, e2)) => Some((EntryView { item: d, time_bound: b }, e2)),
            None => None,
        },
        None => None,
    }
}

/// The encoding of the guest entry: its verdict, then its expiry.
pub open spec fn enc_guest(g: EntryView<GuestPath>) -> Seq<char> {
    (if g.item == GuestPath::Open {
        seq!['O']
    } else {
        seq!['C']
    }) + enc_bound(g.time_bound)
}

/// Decoding the guest entry.
pub open spec fn spec_dec_guest(s: Seq<char>, i: int) -> Option<(EntryView<GuestPath>, int)> {
    if 0 <= i < s.len() && (s[i] == 'O' || s[i] == 'C') {
        let item = if s[i] == 'O' {
            GuestPath::Open
        } else {
            GuestPath::Closed
        };
        match spec_dec_bound(s, i + 1) {
            Some((b, e)) => Some((EntryView { item, time_bound: b }, e)),
            None => None,
        }
    } else {
        None
    }
}

/// The encoding of the optional override entry.
pub open spec fn enc_override(o: Option<EntryView<DeviceOverride>>) -> Seq<char> {
    match o {
        None => seq!['N', '\n'],
        Some(e) => (if e.item == DeviceOverride::Open {
            seq!['S', 'O']
        } else {
            seq!['S', 'C']
        }) + enc_bound(e.time_bound),
    }
}

/// Decoding the optional override entry.
pub open spec fn spec_dec_override(s: Seq<char>, i: int) -> Option<
    (Option<EntryView<DeviceOverride>>, int),
> {
    if i < 0 || i >= s.len() {
        None
    } else if s[i] == 'N' {
        if i + 1 < s.len() && s[i + 1] == '\n' {
            Some((None, i + 2))
        } else {
            None
        }
    } else if s[i] == 'S' {
        if i + 1 < s.len() && (s[i + 1] == 'O' || s[i + 1] == 'C') {
            let item = if s[i + 1] == 'O' {
                DeviceOverride::Open
            } else {
                DeviceOverride::Closed
            };
            match spec_dec_bound(s, i + 2) {
                Some((b, e)) => Some((Some(EntryView { item, time_bound: b }), e)),
                None => None,
            }
        } else {
            None
        }
    } else {
        None
    }
}

/// The encodings of a sequence of devices, one after the other.
pub open spec fn enc_device_list(ds: Seq<DeviceView>) -> Seq<char>
    decreases ds.len(),
{
    if ds.len() == 0 {
        Seq::<char>::empty()
    } else {
        enc_device(ds[0]) + enc_device_list(ds.drop_first())
    }
}

/// Decoding `n` devices, one after the other.
pub open spec fn spec_dec_device_list(s: Seq<char>, i: int, n: nat) -> Option<
    (Seq<DeviceView>, int),
>
    decreases n,
{
    if n == 0 {
        Some((Seq::<DeviceView>::empty(), i))
    } else {
        match spec_dec_device(s, i) {
            Some((d, e)) => match spec_dec_device_list(s, e, (n - 1) as nat) {
                Some((rest, e2)) => Some((seq![d] + rest, e2)),
                None => None,
            },
            None => None,
        }
    }
}

/// The encodings of a sequence of open-device entries.
pub open spec fn enc_entry_list(es: Seq<EntryView<DeviceView>>) -> Seq<char>
    decreases es.len(),
{
    if es.len() == 0 {
        Seq::<char>::empty()
    } else {
        enc_entry(es[0]) + enc_entry_list(es.drop_first())
    }
}

/// Decoding `n` open-device entries.
pub open spec fn spec_dec_entry_list(s: Seq<char>, i: int, n: nat) -> Option<
    (Seq<EntryView<DeviceView>>, int),
>
    decreases n,
{
    if n == 0 {
        Some((Seq::<EntryView<DeviceView>>::empty(), i))
    } else {
        match spec_dec_entry(s, i) {
            Some((d, e)) => match spec_dec_entry_list(s, e, (n - 1) as nat) {
                Some((rest, e2)) => Some((seq![d] + rest, e2)),
                None => None,
            },
            None => None,
        }
    }
}

/// The encoding of a counted device collection: the count, a line
/// break, and the devices.
pub open spec fn enc_devs(ds: Seq<DeviceView>) -> Seq<char> {
    dec_digits(ds.len()) + seq!['\n'] + enc_device_list(ds)
}

/// Decoding a counted device collection.
pub open spec fn spec_dec_devs(s: Seq<char>, i: int) -> Option<(Seq<DeviceView>, int)> {
    match spec_dec_u64(s, i) {
        Some((n, e)) => if e < s.len() && s[e] == '\n' {
            spec_dec_device_list(s, e + 1, n as nat)
        } else {
            None
        },
        None => None,
    }
}

/// The encoding of the counted open-entry collection.
pub open spec fn enc_entries(es: Seq<EntryView<DeviceView>>) -> Seq<char> {
    dec_digits(es.len()) + seq!['\n'] + enc_entry_list(es)
}

/// Decoding the counted open-entry collection.
pub open spec fn spec_dec_entries(s: Seq<char>, i: int) -> Option<
    (Seq<EntryView<DeviceView>>, int),
> {
    match spec_dec_u64(s, i) {
        Some((n, e)) => if e < s.len() && s[e] == '\n' {
            spec_dec_entry_list(s, e + 1, n as nat)
        } else {
            None
        },
        None => None,
    }
}

/// The encoding of a complete world: the guest entry, the override
/// entry, the open entries, the closed devices, and the unknown
/// devices.
pub open spec fn enc_world(w: WorldView) -> Seq<char> {
    enc_guest(w.schedule.guest_entry) + enc_override(w.schedule.override_entry) + enc_entries(
        w.schedule.open_device_entries,
    ) + enc_devs(w.closed_devices) + enc_devs(w.unknown_devices)
}

/// Decoding a complete world; the input must hold exactly one world.
pub open spec fn spec_dec_world(s: Seq<char>) -> Option<WorldView> {
    match spec_dec_guest(s, 0) {
        Some((guest, e1)) => match spec_dec_override(s, e1) {
            Some((ov, e2)) => match spec_dec_entries(s, e2) {
                Some((entries, e3)) => match spec_dec_devs(s, e3) {
                    Some((closed, e4)) => match spec_dec_devs(s, e4) {
                        Some((unknown, e5)) => if e5 == s.len() {
                            Some(
                                WorldView {
                                    schedule: crate::types::ScheduleView {
                                        guest_entry: guest,
                                        override_entry: ov,
                                        open_device_entries: entries,
                                    },
                                    closed_devices: closed,
                                    unknown_devices: unknown,
                                },
                            )
                        } else {
                            None
                        },
                        None => None,
                    },
                    None => None,
                },
                None => None,
            },
            None => None,
        },
        None => None,
    }
}

/// The device's strings are short enough to encode.
pub open spec fn device_encodable(d: DeviceView) -> bool {
    d.name.len() <= u64::MAX && d.mac.len() <= u64::MAX
}

/// Every device of the sequence is encodable, and the count fits.
pub open spec fn devs_encodable(ds: Seq<DeviceView>) -> bool {
    ds.len() <= u64::MAX && forall|i: int| 0 <= i < ds.len() ==> device_encodable(#[trigger] ds[i])
}

/// Every entry of the sequence is encodable, and the count fits.
pub open spec fn entries_encodable(es: Seq<EntryView<DeviceView>>) -> bool {
    es.len() <= u64::MAX && forall|i: int|
        0 <= i < es.len() ==> device_encodable(#[trigger] es[i].item)
}

/// Every collection of the world is encodable.
pub open spec fn world_encodable(w: WorldView) -> bool {
    &&& entries_encodable(w.schedule.open_device_entries)
    &&& devs_encodable(w.closed_devices)
    &&& devs_encodable(w.unknown_devices)
}

/// Decoding reads back exactly the device an encoding wrote.
proof fn lemma_dec_enc_device(s: Seq<char>, i: int, d: DeviceView)
    requires
        0 <= i,
        device_encodable(d),
        i + enc_device(d).len() <= s.len(),
        s.subrange(i, i + enc_device(d).len()) == enc_device(d),
    ensures
        spec_dec_device(s, i) == Some((d, i + enc_device(d).len())),
{
    lemma_subrange_split(s, i, enc_str(d.name), enc_str(d.mac));
    lemma_dec_enc_str(s, i, d.name);
    lemma_dec_enc_str(s, i + enc_str(d.name).len() as int, d.mac);
}

/// Decoding reads back exactly the entry an encoding wrote.
proof fn lemma_dec_enc_entry(s: Seq<char>, i: int, e: EntryView<DeviceView>)
    requires
        0 <= i,
        device_encodable(e.item),
        i + enc_entry(e).len() <= s.len(),
        s.subrange(i, i + enc_entry(e).len()) == enc_entry(e),
    ensures
        spec_dec_entry(s, i) == Some((e, i + enc_entry(e).len())),
{
    lemma_subrange_split(s, i, enc_device(e.item), enc_bound(e.time_bound));
    lemma_dec_enc_device(s, i, e.item);
    lemma_dec_enc_bound(s, i + enc_device(e.item).len() as int, e.time_bound);
}

/// Decoding reads back exactly the guest entry an encoding wrote.
proof fn lemma_dec_enc_guest(s: Seq<char>, i: int, g: EntryView<GuestPath>)
    requires
        0 <= i,
        i + enc_guest(g).len() <= s.len(),
        s.subrange(i, i + enc_guest(g).len()) == enc_guest(g),
    ensures
        spec_dec_guest(s, i) == Some((g, i + enc_guest(g).len())),
{
    let tag = if g.item == GuestPath::Open {
        seq!['O']
    } else {
        seq!['C']
    };
    lemma_subrange_split(s, i, tag, enc_bound(g.time_bound));
    assert(s.subrange(i, i + 1)[0] == s[i]);
    assert(s[i] == tag[0]);
    lemma_dec_enc_bound(s, i + 1, g.time_bound);
}

/// Decoding reads back exactly the override entry an encoding wrote.
proof fn lemma_dec_enc_override(s: Seq<char>, i: int, o: Option<EntryView<DeviceOverride>>)
    requires
        0 <= i,
        i + enc_override(o).len() <= s.len(),
        s.subrange(i, i + enc_override(o).len()) == enc_override(o),
    ensures
        spec_dec_override(s, i) == Some((o, i + enc_override(o).len())),
{
    let enc = enc_override(o);
    match o {
        None => {
            assert(s.subrange(i, i + enc.len() as int)[0] == s[i]);
            assert(enc[0] == 'N');
            assert(s.subrange(i, i + enc.len() as int)[1] == s[i + 1]);
            assert(enc[1] == '\n');
        },
        Some(e) => {
            let tag = if e.item == DeviceOverride::Open {
                seq!['S', 'O']
            } else {
                seq!['S', 'C']
            };
            lemma_subrange_split(s, i, tag, enc_bound(e.time_bound));
            assert(s.subrange(i, i + 2)[0] == s[i]);
            assert(s.subrange(i, i + 2)[1] == s[i + 1]);
            assert(s[i] == 'S');
            assert(s[i + 1] == tag[1]);
            lemma_dec_enc_bound(s, i + 2, e.time_bound);
        },
    }
}

/// Decoding reads back exactly the device sequence an encoding wrote.
proof fn lemma_dec_enc_device_list(s: Seq<char>, i: int, ds: Seq<DeviceView>)
    requires
        0 <= i,
        forall|j: int| 0 <= j < ds.len() ==> device_encodable(#[trigger] ds[j]),
        i + enc_device_list(ds).len() <= s.len(),
        s.subrange(i, i + enc_device_list(ds).len()) == enc_device_list(ds),
    ensures
        spec_dec_device_list(s, i, ds.len()) == Some((ds, i + enc_device_list(ds).len())),
    decreases ds.len(),
{
    if ds.len() == 0 {
        assert(ds =~= Seq::<DeviceView>::empty());
    } else {
        let a = enc_device(ds[0]);
        let b = enc_device_list(ds.drop_first());
        lemma_subrange_split(s, i, a, b);
        lemma_dec_enc_device(s, i, ds[0]);
        assert forall|j: int| 0 <= j < ds.drop_first().len() implies device_encodable(
            #[trigger] ds.drop_first()[j],
        ) by {
            assert(ds.drop_first()[j] == ds[j + 1]);
        }
        lemma_dec_enc_device_list(s, i + a.len(), ds.drop_first());
        assert(seq![ds[0]] + ds.drop_first() =~= ds);
    }
}

/// Decoding reads back exactly the entry sequence an encoding wrote.
proof fn lemma_dec_enc_entry_list(s: Seq<char>, i: int, es: Seq<EntryView<DeviceView>>)
    requires
        0 <= i,
        forall|j: int| 0 <= j < es.len() ==> device_encodable(#[trigger] es[j].item),
        i + enc_entry_list(es).len() <= s.len(),
        s.subrange(i, i + enc_entry_list(es).len()) == enc_entry_list(es),
    ensures
        spec_dec_entry_list(s, i, es.len()) == Some((es, i + enc_entry_list(es).len())),
    decreases es.len(),
{
    if es.len() == 0 {
        assert(es =~= Seq::<EntryView<DeviceView>>::empty());
    } else {
        let a = enc_entry(es[0]);
        let b = enc_entry_list(es.drop_first());
        lemma_subrange_split(s, i, a, b);
        lemma_dec_enc_entry(s, i, es[0]);
        assert forall|j: int| 0 <= j < es.drop_first().len() implies device_encodable(
            #[trigger] es.drop_first()[j].item,
        ) by {
            assert(es.drop_first()[j] == es[j + 1]);
        }
        lemma_dec_enc_entry_list(s, i + a.len(), es.drop_first());
        assert(seq![es[0]] + es.drop_first() =~= es);
    }
}

/// Decoding reads back exactly the counted device collection an
/// encoding wrote.
proof fn lemma_dec_enc_devs(s: Seq<char>, i: int, ds: Seq<DeviceView>)
    requires
        0 <= i,
        devs_encodable(ds),
        i + enc_devs(ds).len() <= s.len(),
        s.subrange(i, i + enc_devs(ds).len()) == enc_devs(ds),
    ensures
        spec_dec_devs(s, i) == Some((ds, i + enc_devs(ds).len())),
{
    let n = ds.len() as u64;
    let nd = dec_digits(ds.len());
    lemma_subrange_split(s, i, nd + seq!['\n'], enc_device_list(ds));
    lemma_subrange_split(s, i, nd, seq!['\n']);
    assert(enc_devs(ds) == (nd + seq!['\n']) + enc_device_list(ds));
    assert(s.subrange(i, i + nd.len() as int) == nd);
    assert(s.subrange(i + nd.len(), i + nd.len() + 1)[0] == s[i + nd.len()]);
    assert(s[i + nd.len()] == '\n');
    assert(!is_digit_char('\n'));
    lemma_dec_enc_u64(s, i, n);
    lemma_dec_enc_device_list(s, i + nd.len() + 1, ds);
}

/// Decoding reads back exactly the counted entry collection an
/// encoding wrote.
proof fn lemma_dec_enc_entries(s: Seq<char>, i: int, es: Seq<EntryView<DeviceView>>)
    requires
        0 <= i,
        entries_encodable(es),
        i + enc_entries(es).len() <= s.len(),
        s.subrange(i, i + enc_entries(es).len()) == enc_entries(es),
    ensures
        spec_dec_entries(s, i) == Some((es, i + enc_entries(es).len())),
{
    let n = es.len() as u64;
    let nd = dec_digits(es.len());
    lemma_subrange_split(s, i, nd + seq!['\n'], enc_entry_list(es));
    lemma_subrange_split(s, i, nd, seq!['\n']);
    assert(enc_entries(es) == (nd + seq!['\n']) + enc_entry_list(es));
    assert(s.subrange(i, i + nd.len() as int) == nd);
    assert(s.subrange(i + nd.len(), i + nd.len() + 1)[0] == s[i + nd.len()]);
    assert(s[i + nd.len()] == '\n');
    assert(!is_digit_char('\n'));
    lemma_dec_enc_u64(s, i, n);
    lemma_dec_enc_entry_list(s, i + nd.len() + 1, es);
}

/// The round trip: decoding an encoded world yields the world back.
pub proof fn lemma_world_round_trip(w: WorldView)
    requires
        world_encodable(w),
    ensures
        spec_dec_world(enc_world(w)) == Some(w),
{
    let s = enc_world(w);
    let g = enc_guest(w.schedule.guest_entry);
    let o = enc_override(w.schedule.override_entry);
    let es = enc_entries(w.schedule.open_device_entries);
    let cd = enc_devs(w.closed_devices);
    let ud = enc_devs(w.unknown_devices);
    assert(s == ((((g + o) + es) + cd) + ud));
    assert(s.subrange(0, s.len() as int) =~= s);
    lemma_subrange_split(s, 0, (((g + o) + es) + cd), ud);
    lemma_subrange_split(s, 0, ((g + o) + es), cd);
    lemma_subrange_split(s, 0, (g + o), es);
    lemma_subrange_split(s, 0, g, o);
    lemma_dec_enc_guest(s, 0, w.schedule.guest_entry);
    lemma_dec_enc_override(s, g.len() as int, w.schedule.override_entry);
    lemma_dec_enc_entries(s, (g + o).len() as int, w.schedule.open_device_entries);
    lemma_dec_enc_devs(s, ((g + o) + es).len() as int, w.closed_devices);
    lemma_dec_enc_devs(s, (((g + o) + es) + cd).len() as int, w.unknown_devices);
}


/// The texts of concatenated device encodings concatenate.
proof fn lemma_enc_device_list_concat(a: Seq<DeviceView>, b: Seq<DeviceView>)
    ensures
        enc_device_list(a + b) == enc_device_list(a) + enc_device_list(b),
    decreases a.len(),
{
    if a.len() == 0 {
        assert(a + b =~= b);
        assert(enc_device_list(a) + enc_device_list(b) =~= enc_device_list(b));
    } else {
        assert((a + b)[0] == a[0]);
        assert((a + b).drop_first() =~= a.drop_first() + b);
        lemma_enc_device_list_concat(a.drop_first(), b);
        assert(enc_device(a[0]) + (enc_device_list(a.drop_first()) + enc_device_list(b)) =~= (
        enc_device(a[0]) + enc_device_list(a.drop_first())) + enc_device_list(b));
    }
}

/// Extending the encoded prefix by one device appends its encoding.
proof fn lemma_enc_device_list_take_succ(ds: Seq<DeviceView>, i: int)
    requires
        0 <= i < ds.len(),
    ensures
        enc_device_list(ds.take(i + 1)) == enc_device_list(ds.take(i)) + enc_device(ds[i]),
{
    let single = seq![ds[i]];
    assert(ds.take(i + 1) =~= ds.take(i) + single);
    lemma_enc_device_list_concat(ds.take(i), single);
    assert(single.drop_first() =~= Seq::<DeviceView>::empty());
    reveal_with_fuel(enc_device_list, 3);
    assert(enc_device_list(single) =~= enc_device(ds[i]));
}

/// The texts of concatenated entry encodings concatenate.
proof fn lemma_enc_entry_list_concat(a: Seq<EntryView<DeviceView>>, b: Seq<EntryView<DeviceView>>)
    ensures
        enc_entry_list(a + b) == enc_entry_list(a) + enc_entry_list(b),
    decreases a.len(),
{
    if a.len() == 0 {
        assert(a + b =~= b);
        assert(enc_entry_list(a) + enc_entry_list(b) =~= enc_entry_list(b));
    } else {
        assert((a + b)[0] == a[0]);
        assert((a + b).drop_first() =~= a.drop_first() + b);
        lemma_enc_entry_list_concat(a.drop_first(), b);
        assert(enc_entry(a[0]) + (enc_entry_list(a.drop_first()) + enc_entry_list(b)) =~= (
        enc_entry(a[0]) + enc_entry_list(a.drop_first())) + enc_entry_list(b));
    }
}

/// Extending the encoded prefix by one entry appends its encoding.
proof fn lemma_enc_entry_list_take_succ(es: Seq<EntryView<DeviceView>>, i: int)
    requires
        0 <= i < es.len(),
    ensures
        enc_entry_list(es.take(i + 1)) == enc_entry_list(es.take(i)) + enc_entry(es[i]),
{
    let single = seq![es[i]];
    assert(es.take(i + 1) =~= es.take(i) + single);
    lemma_enc_entry_list_concat(es.take(i), single);
    assert(single.drop_first() =~= Seq::<EntryView<DeviceView>>::empty());
    reveal_with_fuel(enc_entry_list, 3);
    assert(enc_entry_list(single) =~= enc_entry(es[i]));
}

/// Append the encoding of a device to `dest`.
fn enc_device_into(d: &Device, dest: &mut String)
    ensures
        final(dest)@ == old(dest)@ + enc_device(d@),
{
    enc_str_into(d.name.as_str(), dest);
    enc_str_into(d.mac.as_str(), dest);
    proof {
        assert(dest@ =~= old(dest)@ + enc_device(d@));
    }
}

/// Append the encoding of an open-device entry to `dest`.
fn enc_entry_into(e: &ScheduleEntry<Device>, dest: &mut String)
    ensures
        final(dest)@ == old(dest)@ + enc_entry(e@),
{
    enc_device_into(&e.item, dest);
    enc_bound_into(e.time_bound, dest);
    proof {
        assert(dest@ =~= old(dest)@ + enc_entry(e@));
    }
}

/// Append the encoding of the guest entry to `dest`.
fn enc_guest_into(g: &ScheduleEntry<GuestPath>, dest: &mut String)
    ensures
        final(dest)@ == old(dest)@ + enc_guest(g@),
{
    match g.item {
        GuestPath::Open => {
            dest.append("O");
            proof {
                reveal_strlit("O");
                assert("O"@ =~= seq!['O']);
            }
        },
        GuestPath::Closed => {
            dest.append("C");
            proof {
                reveal_strlit("C");
                assert("C"@ =~= seq!['C']);
            }
        },
    }
    enc_bound_into(g.time_bound, dest);
    proof {
        assert(dest@ =~= old(dest)@ + enc_guest(g@));
    }
}

/// Append the encoding of the optional override entry to `dest`.
fn enc_override_into(o: &Option<ScheduleEntry<DeviceOverride>>, dest: &mut String)
    ensures
        final(dest)@ == old(dest)@ + enc_override(
            match *o {
                Some(e) => Some(e@),
                None => None,
            },
        ),
{
    match o {
        None => {
            dest.append("N\n");
            proof {
                reveal_strlit("N\n");
                assert("N\n"@ =~= seq!['N', '\n']);
            }
        },
        Some(e) => {
            match e.item {
                DeviceOverride::Open => {
                    dest.append("SO");
                    proof {
                        reveal_strlit("SO");
                        assert("SO"@ =~= seq!['S', 'O']);
                    }
                },
                DeviceOverride::Closed => {
                    dest.append("SC");
                    proof {
                        reveal_strlit("SC");
                        assert("SC"@ =~= seq!['S', 'C']);
                    }
                },
            }
            enc_bound_into(e.time_bound, dest);
            proof {
                assert(dest@ =~= old(dest)@ + enc_override(Some(e@)));
            }
        },
    }
}

/// Append the encoding of a counted device collection to `dest`.
fn enc_devs_into(ds: &Vec<Device>, dest: &mut String)
    ensures
        final(dest)@ == old(dest)@ + enc_devs(views_of(ds@)),
{
    enc_u64_into(ds.len() as u64, dest);
    dest.append("\n");
    proof {
        reveal_strlit("\n");
        assert("\n"@ =~= seq!['\n']);
        assert(views_of(ds@).take(0) =~= Seq::<DeviceView>::empty());
        assert(dest@ =~= old(dest)@ + dec_digits(views_of(ds@).len()) + seq!['\n']
            + enc_device_list(views_of(ds@).take(0)));
    }
    let mut i: usize = 0;
    while i < ds.len()
        invariant
            i <= ds.len(),
            dest@ == old(dest)@ + dec_digits(views_of(ds@).len()) + seq!['\n'] + enc_device_list(
                views_of(ds@).take(i as int),
            ),
        decreases ds.len() - i,
    {
        enc_device_into(&ds[i], dest);
        proof {
            lemma_enc_device_list_take_succ(views_of(ds@), i as int);
            assert(dest@ =~= old(dest)@ + dec_digits(views_of(ds@).len()) + seq!['\n']
                + enc_device_list(views_of(ds@).take(i as int + 1)));
        }
        i = i + 1;
    }
    proof {
        assert(views_of(ds@).take(views_of(ds@).len() as int) =~= views_of(ds@));
        assert(dest@ =~= old(dest)@ + enc_devs(views_of(ds@)));
    }
}

/// Append the encoding of the counted open-entry collection to `dest`.
fn enc_entries_into(es: &Vec<ScheduleEntry<Device>>, dest: &mut String)
    ensures
        final(dest)@ == old(dest)@ + enc_entries(views_of(es@)),
{
    enc_u64_into(es.len() as u64, dest);
    dest.append("\n");
    proof {
        reveal_strlit("\n");
        assert("\n"@ =~= seq!['\n']);
        assert(views_of(es@).take(0) =~= Seq::<EntryView<DeviceView>>::empty());
        assert(dest@ =~= old(dest)@ + dec_digits(views_of(es@).len()) + seq!['\n']
            + enc_entry_list(views_of(es@).take(0)));
    }
    let mut i: usize = 0;
    while i < es.len()
        invariant
            i <= es.len(),
            dest@ == old(dest)@ + dec_digits(views_of(es@).len()) + seq!['\n'] + enc_entry_list(
                views_of(es@).take(i as int),
            ),
        decreases es.len() - i,
    {
        enc_entry_into(&es[i], dest);
        proof {
            lemma_enc_entry_list_take_succ(views_of(es@), i as int);
            assert(dest@ =~= old(dest)@ + dec_digits(views_of(es@).len()) + seq!['\n']
                + enc_entry_list(views_of(es@).take(i as int + 1)));
        }
        i = i + 1;
    }
    proof {
        assert(views_of(es@).take(views_of(es@).len() as int) =~= views_of(es@));
        assert(dest@ =~= old(dest)@ + enc_entries(views_of(es@)));
    }
}

/// Render a world into its persistent text form.
pub fn encode_world(world: &World) -> (r: String)
    ensures
        r@ == enc_world(world@),
{
    let mut dest = String::new();
    enc_guest_into(&world.schedule.guest_entry, &mut dest);
    enc_override_into(&world.schedule.override_entry, &mut dest);
    enc_entries_into(&world.schedule.open_device_entries, &mut dest);
    enc_devs_into(&world.closed_devices, &mut dest);
    enc_devs_into(&world.unknown_devices, &mut dest);
    proof {
        assert(dest@ =~= enc_world(world@));
    }
    dest
}

/// Decode a device at position `pos`.
fn dec_device_at(s: &str, pos: usize, len: usize) -> (r: Option<(Device, usize)>)
    requires
        len == s@.len(),
        pos <= len,
    ensures
        (match (r, spec_dec_device(s@, pos as int)) {
            (Some((d, e)), Some((d2, e2))) => d@ == d2 && e as int == e2 && pos < e <= len,
            (None, None) => true,
            _ => false,
        }),
{
    let (name, e1) = match dec_str_at(s, pos, len) {
        Some(v) => v,
        None => {
            return None;
        },
    };
    let (mac, e2) = match dec_str_at(s, e1, len) {
        Some(v) => v,
        None => {
            return None;
        },
    };
    Some((Device { name, mac }, e2))
}

/// Decode an open-device entry at position `pos`.
fn dec_entry_at(s: &str, pos: usize, len: usize) -> (r: Option<(ScheduleEntry<Device>, usize)>)
    requires
        len == s@.len(),
        pos <= len,
    ensures
        (match (r, spec_dec_entry(s@, pos as int)) {
            (Some((v, e)), Some((v2, e2))) => v@ == v2 && e as int == e2 && pos < e <= len,
            (None, None) => true,
            _ => false,
        }),
{
    let (item, e1) = match dec_device_at(s, pos, len) {
        Some(v) => v,
        None => {
            return None;
        },
    };
    let (time_bound, e2) = match dec_bound_at(s, e1, len) {
        Some(v) => v,
        None => {
            return None;
        },
    };
    Some((ScheduleEntry { item, time_bound }, e2))
}

/// Decode the guest entry at position `pos`.
fn dec_guest_at(s: &str, pos: usize, len: usize) -> (r: Option<(ScheduleEntry<GuestPath>, usize)>)
    requires
        len == s@.len(),
        pos <= len,
    ensures
        (match (r, spec_dec_guest(s@, pos as int)) {
            (Some((v, e)), Some((v2, e2))) => v@ == v2 && e as int == e2 && pos < e <= len,
            (None, None) => true,
            _ => false,
        }),
{
    if pos >= len {
        return None;
    }
    let c = s.get_char(pos);
    let item = if c == 'O' {
        GuestPath::Open
    } else if c == 'C' {
        GuestPath::Closed
    } else {
        return None;
    };
    let (time_bound, e) = match dec_bound_at(s, pos + 1, len) {
        Some(v) => v,
        None => {
            return None;
        },
    };
    Some((ScheduleEntry { item, time_bound }, e))
}

/// Decode the optional override entry at position `pos`.
fn dec_override_at(s: &str, pos: usize, len: usize) -> (r: Option<
    (Option<ScheduleEntry<DeviceOverride>>, usize),
>)
    requires
        len == s@.len(),
        pos <= len,
    ensures
        (match (r, spec_dec_override(s@, pos as int)) {
            (Some((v, e)), Some((v2, e2))) => (match (v, v2) {
                (Some(a), Some(b)) => a@ == b,
                (None, None) => true,
                _ => false,
            }) && e as int == e2 && pos < e <= len,
            (None, None) => true,
            _ => false,
        }),
{
    if pos >= len {
        return None;
    }
    let c = s.get_char(pos);
    if c == 'N' {
        if pos + 1 < len {
            let c2 = s.get_char(pos + 1);
            if c2 == '\n' {
                return Some((None, pos + 2));
            }
        }
        return None;
    }
    if c == 'S' {
        if pos + 1 < len {
            let c2 = s.get_char(pos + 1);
            let item = if c2 == 'O' {
                DeviceOverride::Open
            } else if c2 == 'C' {
                DeviceOverride::Closed
            } else {
                return None;
            };
            let (time_bound, e) = match dec_bound_at(s, pos + 2, len) {
                Some(v) => v,
                None => {
                    return None;
                },
            };
            return Some((Some(ScheduleEntry { item, time_bound }), e));
        }
        return None;
    }
    None
}

/// Decode `n` devices at position `pos`.
fn dec_device_list_at(s: &str, pos: usize, len: usize, n: u64) -> (r: Option<(Vec<Device>, usize)>)
    requires
        len == s@.len(),
        pos <= len,
    ensures
        (match (r, spec_dec_device_list(s@, pos as int, n as nat)) {
            (Some((ds, e)), Some((ds2, e2))) => views_of(ds@) == ds2 && e as int == e2 && pos <= e
                <= len,
            (None, None) => true,
            _ => false,
        }),
    decreases n,
{
    if n == 0 {
        let empty: Vec<Device> = Vec::new();
        proof {
            assert(views_of(empty@) =~= Seq::<DeviceView>::empty());
        }
        return Some((empty, pos));
    }
    let (d, e) = match dec_device_at(s, pos, len) {
        Some(v) => v,
        None => {
            return None;
        },
    };
    let ghost dv = d@;
    match dec_device_list_at(s, e, len, n - 1) {
        Some((mut rest, e2)) => {
            let ghost restv = views_of(rest@);
            rest.insert(0, d);
            proof {
                assert(views_of(rest@) =~= seq![dv] + restv);
            }
            Some((rest, e2))
        },
        None => None,
    }
}

/// Decode `n` open-device entries at position `pos`.
fn dec_entry_list_at(s: &str, pos: usize, len: usize, n: u64) -> (r: Option<
    (Vec<ScheduleEntry<Device>>, usize),
>)
    requires
        len == s@.len(),
        pos <= len,
    ensures
        (match (r, spec_dec_entry_list(s@, pos as int, n as nat)) {
            (Some((es, e)), Some((es2, e2))) => views_of(es@) == es2 && e as int == e2 && pos <= e
                <= len,
            (None, None) => true,
            _ => false,
        }),
    decreases n,
{
    if n == 0 {
        let empty: Vec<ScheduleEntry<Device>> = Vec::new();
        proof {
            assert(views_of(empty@) =~= Seq::<EntryView<DeviceView>>::empty());
        }
        return Some((empty, pos));
    }
    let (v, e) = match dec_entry_at(s, pos, len) {
        Some(v) => v,
        None => {
            return None;
        },
    };
    let ghost vv = v@;
    match dec_entry_list_at(s, e, len, n - 1) {
        Some((mut rest, e2)) => {
            let ghost restv = views_of(rest@);
            rest.insert(0, v);
            proof {
                assert(views_of(rest@) =~= seq![vv] + restv);
            }
            Some((rest, e2))
        },
        None => None,
    }
}

/// Decode a counted device collection at position `pos`.
fn dec_devs_at(s: &str, pos: usize, len: usize) -> (r: Option<(Vec<Device>, usize)>)
    requires
        len == s@.len(),
        pos <= len,
    ensures
        (match (r, spec_dec_devs(s@, pos as int)) {
            (Some((ds, e)), Some((ds2, e2))) => views_of(ds@) == ds2 && e as int == e2 && pos <= e
                <= len,
            (None, None) => true,
            _ => false,
        }),
{
    let (n, e) = match dec_u64_at(s, pos, len) {
        Some(v) => v,
        None => {
            return None;
        },
    };
    if e < len {
        let c = s.get_char(e);
        if c == '\n' {
            return dec_device_list_at(s, e + 1, len, n);
        }
        return None;
    }
    None
}

/// Decode the counted open-entry collection at position `pos`.
fn dec_entries_at(s: &str, pos: usize, len: usize) -> (r: Option<
    (Vec<ScheduleEntry<Device>>, usize),
>)
    requires
        len == s@.len(),
        pos <= len,
    ensures
        (match (r, spec_dec_entries(s@, pos as int)) {
            (Some((es, e)), Some((es2, e2))) => views_of(es@) == es2 && e as int == e2 && pos <= e
                <= len,
            (None, None) => true,
            _ => false,
        }),
{
    let (n, e) = match dec_u64_at(s, pos, len) {
        Some(v) => v,
        None => {
            return None;
        },
    };
    if e < len {
        let c = s.get_char(e);
        if c == '\n' {
            return dec_entry_list_at(s, e + 1, len, n);
        }
        return None;
    }
    None
}

/// Read a world back from its persistent text form.
pub fn decode_world(s: &str) -> (r: Option<World>)
    ensures
        (match (r, spec_dec_world(s@)) {
            (Some(w), Some(wv)) => w@ == wv,
            (None, None) => true,
            _ => false,
        }),
{
    let len = s.unicode_len();
    let (guest_entry, e1) = match dec_guest_at(s, 0, len) {
        Some(v) => v,
        None => {
            return None;
        },
    };
    let (override_entry, e2) = match dec_override_at(s, e1, len) {
        Some(v) => v,
        None => {
            return None;
        },
    };
    let (open_device_entries, e3) = match dec_entries_at(s, e2, len) {
        Some(v) => v,
        None => {
            return None;
        },
    };
    let (closed_devices, e4) = match dec_devs_at(s, e3, len) {
        Some(v) => v,
        None => {
            return None;
        },
    };
    let (unknown_devices, e5) = match dec_devs_at(s, e4, len) {
        Some(v) => v,
        None => {
            return None;
        },
    };
    if e5 != len {
        return None;
    }
    Some(
        World {
            schedule: Schedule { guest_entry, override_entry, open_device_entries },
            closed_devices,
            unknown_devices,
        },
    )
}

} // verus!

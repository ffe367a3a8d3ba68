//! Textual primitives for the master-file form: decimal numbers, dotted
//! IPv4 addresses, and whitespace tokenisation.

use vstd::prelude::*;
use crate::name::{DOT, DIG_0, DIG_9, first_dot, with_dot};

verus! {

/// The space and tab bytes.
pub const SPACE: u8 = 32;

pub const TAB: u8 = 9;

pub const NEWLINE: u8 = 10;

pub const CARRIAGE_RETURN: u8 = 13;

pub open spec fn is_digit(b: u8) -> bool {
    DIG_0 <= b && b <= DIG_9
}

pub open spec fn all_digits(s: Seq<u8>) -> bool {
    forall|i: int| 0 <= i < s.len() ==> is_digit(#[trigger] s[i])
}

/// The value of a digit string, most significant first.
pub open spec fn digits_val(s: Seq<u8>) -> int
    decreases s.len(),
{
    if s.len() == 0 {
        0
    } else {
        digits_val(s.take(s.len() - 1)) * 10 + (s[s.len() - 1] - DIG_0)
    }
}

/// The number a decimal token denotes, if it is all digits and fits in u32.
pub open spec fn dec_u32(s: Seq<u8>) -> Option<u32> {
    if 1 <= s.len() && all_digits(s) && digits_val(s) <= 0xFFFF_FFFF {
        Some(digits_val(s) as u32)
    } else {
        None
    }
}

/// The canonical decimal text of a number.
pub open spec fn dec_text(n: int) -> Seq<u8>
    decreases n,
{
    if n < 10 {
        seq![(DIG_0 + if n >= 0 { n } else { 0 }) as u8]
    } else {
        dec_text(n / 10).push((DIG_0 + n % 10) as u8)
    }
}

pub proof fn lemma_digits_val_nonneg(s: Seq<u8>)
    requires
        all_digits(s),
    ensures
        digits_val(s) >= 0,
    decreases s.len(),
{
    if s.len() > 0 {
        assert forall|i: int| 0 <= i < s.take(s.len() - 1).len() implies is_digit(
            #[trigger] s.take(s.len() - 1)[i],
        ) by {
            assert(s.take(s.len() - 1)[i] == s[i]);
        }
        lemma_digits_val_nonneg(s.take(s.len() - 1));
    }
}

/// Longer digit prefixes denote no smaller values.
pub proof fn lemma_digits_val_mono(s: Seq<u8>, k: int)
    requires
        all_digits(s),
        0 <= k <= s.len(),
    ensures
        digits_val(s) >= digits_val(s.take(k)),
    decreases s.len() - k,
{
    if k == s.len() {
        assert(s.take(k) =~= s);
    } else {
        lemma_digits_val_mono(s, k + 1);
        let t = s.take(k + 1);
        assert(t.take(t.len() - 1) =~= s.take(k));
        assert forall|i: int| 0 <= i < s.take(k).len() implies is_digit(
            #[trigger] s.take(k)[i],
        ) by {
            assert(s.take(k)[i] == s[i]);
        }
        lemma_digits_val_nonneg(s.take(k));
        assert(digits_val(t) == digits_val(s.take(k)) * 10 + (s[k] - DIG_0));
    }
}

/// Parse a decimal token into a 32-bit number.
pub fn parse_u32(s: &[u8]) -> (r: Option<u32>)
    ensures
        r == dec_u32(s@),
{
    if s.len() == 0 {
        return None;
    }
    let mut val: u32 = 0;
    let mut i: usize = 0;
    proof {
        assert(s@.take(0) =~= Seq::<u8>::empty());
    }
    while i < s.len()
        invariant
            i <= s@.len(),
            val == digits_val(s@.take(i as int)),
            all_digits(s@.take(i as int)),
        decreases s@.len() - i,
    {
        let b = s[i];
        if b < DIG_0 || b > DIG_9 {
            proof {
                assert(!is_digit(s@[i as int]));
            }
            return None;
        }
        let d = (b - DIG_0) as u32;
        if val > (0xFFFF_FFFFu32 - d) / 10 {
            // The value so far already overflows once extended.
            proof {
                let t = s@.take(i as int + 1);
                assert(t.take(t.len() - 1) =~= s@.take(i as int));
                assert forall|j: int| 0 <= j < t.len() implies is_digit(#[trigger] t[j]) by {
                    assert(t[j] == s@[j]);
                }
                assert(digits_val(t) == val * 10 + d);
                if all_digits(s@) {
                    lemma_digits_val_mono(s@, i as int + 1);
                }
            }
            return None;
        }
        val = val * 10 + d;
        proof {
            let t = s@.take(i as int + 1);
            assert(t.take(t.len() - 1) =~= s@.take(i as int));
            assert forall|j: int| 0 <= j < t.len() implies is_digit(#[trigger] t[j]) by {
                assert(t[j] == s@[j]);
            }
        }
        i += 1;
    }
    proof {
        assert(s@.take(s@.len() as int) =~= s@);
    }
    Some(val)
}

/// Append the canonical decimal text of `n`.
pub fn write_dec(n: u32, out: &mut Vec<u8>)
    ensures
        final(out)@ == old(out)@ + dec_text(n as int),
    decreases n,
{
    if n < 10 {
        out.push(DIG_0 + (n as u8));
        proof {
            assert(final(out)@ =~= old(out)@ + dec_text(n as int));
        }
    } else {
        write_dec(n / 10, out);
        out.push(DIG_0 + ((n % 10) as u8));
        proof {
            assert(final(out)@ =~= old(out)@ + dec_text(n as int));
        }
    }
}

/// Split dot-terminated text into decimal octet values.
pub open spec fn parse_octets(s: Seq<u8>) -> Option<Seq<int>>
    decreases s.len(),
{
    if s.len() == 0 {
        Some(Seq::empty())
    } else {
        match first_dot(s) {
            None => None,
            Some(k) => if 0 < k < s.len() && k <= 3 && all_digits(s.subrange(0, k))
                && digits_val(s.subrange(0, k)) <= 255 {
                match parse_octets(s.skip(k + 1)) {
                    None => None,
                    Some(rest) => Some(seq![digits_val(s.subrange(0, k))] + rest),
                }
            } else {
                None
            },
        }
    }
}

/// The address a dotted-quad token denotes, as a big-endian 32-bit value.
pub open spec fn ipv4_val(s: Seq<u8>) -> Option<u32> {
    if s.len() > 0 && s[s.len() - 1] == DOT {
        None
    } else {
        match parse_octets(with_dot(s)) {
            None => None,
            Some(os) => if os.len() == 4 {
                Some((os[0] * 0x1000000 + os[1] * 0x10000 + os[2] * 0x100 + os[3]) as u32)
            } else {
                None
            },
        }
    }
}

/// The dotted-quad text of an address.
pub open spec fn ipv4_text(a: u32) -> Seq<u8> {
    dec_text(a as int / 0x1000000) + seq![DOT] + dec_text((a as int / 0x10000) % 256) + seq![DOT]
        + dec_text((a as int / 0x100) % 256) + seq![DOT] + dec_text(a as int % 256)
}

/// Parse a dotted-quad token into an address.
pub fn parse_ipv4(s: &[u8]) -> (r: Option<u32>)
    ensures
        r == ipv4_val(s@),
{
    if s.len() > 0 && s[s.len() - 1] == DOT {
        return None;
    }
    let mut d: Vec<u8> = Vec::new();
    let mut i: usize = 0;
    proof {
        assert(d@ =~= s@.take(0));
    }
    while i < s.len()
        invariant
            i <= s@.len(),
            d@ == s@.take(i as int),
        decreases s@.len() - i,
    {
        d.push(s[i]);
        proof {
            assert(d@ =~= s@.take(i as int + 1));
        }
        i += 1;
    }
    proof {
        assert(s@.take(s@.len() as int) =~= s@);
    }
    d.push(DOT);
    proof {
        assert(d@ == with_dot(s@));
    }
    let ghost dd = d@;
    let mut octs: Vec<u32> = Vec::new();
    let mut pos: usize = 0;
    proof {
        assert(octs@ =~= Seq::<u32>::empty());
        assert(dd.skip(0) =~= dd);
        assert(Seq::new(octs@.len(), |t: int| octs@[t] as int) =~= Seq::<int>::empty());
    }
    while pos < d.len()
        invariant
            pos <= d@.len(),
            d@ == dd,
            dd == with_dot(s@),
            !(s@.len() > 0 && s@[s@.len() - 1] == DOT),
            forall|t: int| 0 <= t < octs@.len() ==> 0 <= #[trigger] octs@[t] <= 255,
            parse_octets(dd) == match parse_octets(dd.skip(pos as int)) {
                Some(rest) => Some(
                    Seq::new(octs@.len(), |t: int| octs@[t] as int) + rest,
                ),
                None => None::<Seq<int>>,
            },
        decreases d@.len() - pos,
    {
        match crate::name::first_dot_from(&d, pos) {
            None => {
                return None;
            },
            Some(k) => {
                let ghost tail = dd.skip(pos as int);
                proof {
                    assert(tail.subrange(0, k - pos) =~= dd.subrange(pos as int, k as int));
                    assert(tail.skip(k - pos + 1) =~= dd.skip(k as int + 1));
                }
                let glen = k - pos;
                if glen == 0 || glen > 3 {
                    return None;
                }
                // Read the octet's digits.
                let mut v: u32 = 0;
                let mut j: usize = pos;
                proof {
                    assert(dd.subrange(pos as int, pos as int) =~= Seq::<u8>::empty());
                }
                while j < k
                    invariant
                        pos <= j <= k < d@.len(),
                        d@ == dd,
                        dd == with_dot(s@),
                        !(s@.len() > 0 && s@[s@.len() - 1] == DOT),
                        1 <= k - pos <= 3,
                        first_dot(dd.skip(pos as int)) == Some(k - pos as int),
                        parse_octets(dd) == match parse_octets(dd.skip(pos as int)) {
                            Some(rest) => Some(
                                Seq::new(octs@.len(), |t: int| octs@[t] as int) + rest,
                            ),
                            None => None::<Seq<int>>,
                        },
                        forall|t: int| 0 <= t < octs@.len() ==> 0 <= #[trigger] octs@[t] <= 255,
                        v == digits_val(dd.subrange(pos as int, j as int)),
                        v < ({
                            let w = j - pos;
                            if w == 0 {
                                1int
                            } else if w == 1 {
                                10int
                            } else if w == 2 {
                                100int
                            } else {
                                1000int
                            }
                        }),
                        all_digits(dd.subrange(pos as int, j as int)),
                    decreases k - j,
                {
                    let b = d[j];
                    if b < DIG_0 || b > DIG_9 {
                        proof {
                            assert(dd.skip(pos as int).subrange(0, k - pos as int)
                                =~= dd.subrange(pos as int, k as int));
                            assert(dd.subrange(pos as int, k as int)[j - pos] == b);
                            assert(!all_digits(dd.subrange(pos as int, k as int)));
                        }
                        return None;
                    }
                    proof {
                        let t = dd.subrange(pos as int, j as int + 1);
                        assert(t.take(t.len() - 1) =~= dd.subrange(pos as int, j as int));
                        assert forall|q: int| 0 <= q < t.len() implies is_digit(
                            #[trigger] t[q],
                        ) by {
                            assert(t[q] == dd[pos + q]);
                        }
                        lemma_digits_val_nonneg(dd.subrange(pos as int, j as int));
                    }
                    v = v * 10 + ((b - DIG_0) as u32);
                    j += 1;
                }
                if v > 255 {
                    proof {
                        assert(dd.skip(pos as int).subrange(0, k - pos as int) =~= dd.subrange(
                            pos as int,
                            k as int,
                        ));
                        assert(digits_val(dd.subrange(pos as int, k as int)) > 255);
                    }
                    return None;
                }
                proof {
                    let lv = Seq::new(octs@.len(), |t: int| octs@[t] as int);
                    if parse_octets(dd.skip(k as int + 1)) is Some {
                        let rest2 = parse_octets(dd.skip(k as int + 1))->Some_0;
                        assert(lv + (seq![v as int] + rest2) =~= (lv + seq![v as int]) + rest2);
                    }
                }
                let ghost pre_octs = octs@;
                octs.push(v);
                proof {
                    assert(Seq::new(octs@.len(), |t: int| octs@[t] as int) =~= Seq::new(
                        pre_octs.len(),
                        |t: int| pre_octs[t] as int,
                    ) + seq![v as int]);
                }
                pos = k + 1;
            },
        }
    }
    proof {
        assert(dd.skip(pos as int) =~= Seq::<u8>::empty());
    }
    if octs.len() != 4 {
        return None;
    }
    let a = octs[0] * 0x1000000 + octs[1] * 0x10000 + octs[2] * 0x100 + octs[3];
    proof {
        let os = Seq::new(octs@.len(), |t: int| octs@[t] as int);
        assert(parse_octets(dd) == Some(os + Seq::<int>::empty()));
        assert(os + Seq::<int>::empty() =~= os);
        assert(os[0] == octs@[0] as int && os[1] == octs@[1] as int && os[2] == octs@[2] as int
            && os[3] == octs@[3] as int);
    }
    Some(a)
}

/// Append the dotted-quad text of `a`.
pub fn write_ipv4(a: u32, out: &mut Vec<u8>)
    ensures
        final(out)@ == old(out)@ + ipv4_text(a),
{
    write_dec(a / 0x1000000, out);
    out.push(DOT);
    write_dec((a / 0x10000) % 256, out);
    out.push(DOT);
    write_dec((a / 0x100) % 256, out);
    out.push(DOT);
    write_dec(a % 256, out);
    proof {
        assert(final(out)@ =~= old(out)@ + ipv4_text(a));
    }
}

/// ASCII bytes as the characters they denote.
pub open spec fn ascii_chars(b: Seq<u8>) -> Seq<char> {
    Seq::new(b.len(), |i: int| b[i] as char)
}

pub open spec fn is_ws(b: u8) -> bool {
    b == SPACE || b == TAB || b == NEWLINE || b == CARRIAGE_RETURN
}

/// Index of the first whitespace byte, if any.
pub open spec fn first_ws(s: Seq<u8>) -> Option<int>
    decreases s.len(),
{
    if s.len() == 0 {
        None
    } else if is_ws(s[0]) {
        Some(0int)
    } else {
        match first_ws(s.skip(1)) {
            None => None,
            Some(k) => Some(k + 1),
        }
    }
}

pub proof fn lemma_first_ws_char(s: Seq<u8>)
    ensures
        match first_ws(s) {
            Some(k) => 0 <= k < s.len() && is_ws(s[k]) && forall|j: int|
                0 <= j < k ==> !is_ws(s[j]),
            None => forall|j: int| 0 <= j < s.len() ==> !is_ws(s[j]),
        },
    decreases s.len(),
{
    if s.len() == 0 {
    } else if is_ws(s[0]) {
    } else {
        lemma_first_ws_char(s.skip(1));
        match first_ws(s.skip(1)) {
            None => {
                assert forall|j: int| 0 <= j < s.len() implies !is_ws(s[j]) by {
                    if j > 0 {
                        assert(!is_ws(s.skip(1)[j - 1]));
                    }
                }
            },
            Some(k) => {
                assert(s[k + 1] == s.skip(1)[k]);
                assert forall|j: int| 0 <= j < k + 1 implies !is_ws(s[j]) by {
                    if j > 0 {
                        assert(!is_ws(s.skip(1)[j - 1]));
                    }
                }
            },
        }
    }
}

/// The whitespace-separated tokens of `s`, in order.
pub open spec fn ws_tokens(s: Seq<u8>) -> Seq<Seq<u8>>
    decreases s.len(),
{
    if s.len() == 0 {
        Seq::empty()
    } else if is_ws(s[0]) {
        ws_tokens(s.skip(1))
    } else {
        match first_ws(s) {
            None => seq![s],
            Some(k) => if 0 < k < s.len() {
                seq![s.subrange(0, k)] + ws_tokens(s.skip(k))
            } else {
                seq![s]
            },
        }
    }
}

/// Find the first whitespace byte at or after `pos`.
fn first_ws_in(d: &[u8], pos: usize) -> (r: Option<usize>)
    requires
        pos <= d@.len(),
    ensures
        match r {
            Some(k) => pos <= k < d@.len() && first_ws(d@.skip(pos as int)) == Some(
                k - pos as int,
            ),
            None => first_ws(d@.skip(pos as int)) is None,
        },
{
    let mut j: usize = pos;
    while j < d.len()
        invariant
            pos <= j <= d@.len(),
            forall|t: int| pos <= t < j ==> !is_ws(#[trigger] d@[t]),
        decreases d@.len() - j,
    {
        let b = d[j];
        if b == SPACE || b == TAB || b == NEWLINE || b == CARRIAGE_RETURN {
            proof {
                lemma_first_ws_char(d@.skip(pos as int));
                match first_ws(d@.skip(pos as int)) {
                    None => {
                        assert(d@.skip(pos as int)[j - pos] == b);
                    },
                    Some(k) => {
                        if k < j - pos {
                            assert(d@[k + pos] == d@.skip(pos as int)[k]);
                        }
                        if k > j - pos {
                            assert(!is_ws(d@.skip(pos as int)[j - pos]));
                        }
                    },
                }
            }
            return Some(j);
        }
        j += 1;
    }
    proof {
        lemma_first_ws_char(d@.skip(pos as int));
        if let Some(k) = first_ws(d@.skip(pos as int)) {
            assert(d@[k + pos] == d@.skip(pos as int)[k]);
        }
    }
    None
}

/// Copy `d[a..b]` out.
pub fn copy_range(d: &[u8], a: usize, b: usize) -> (r: Vec<u8>)
    requires
        a <= b <= d@.len(),
    ensures
        r@ == d@.subrange(a as int, b as int),
{
    let mut r: Vec<u8> = Vec::new();
    let mut j: usize = a;
    proof {
        assert(r@ =~= d@.subrange(a as int, a as int));
    }
    while j < b
        invariant
            a <= j <= b <= d@.len(),
            r@ == d@.subrange(a as int, j as int),
        decreases b - j,
    {
        r.push(d[j]);
        proof {
            assert(r@ =~= d@.subrange(a as int, j as int + 1));
        }
        j += 1;
    }
    r
}

/// Split `s` into its whitespace-separated tokens.
pub fn tokenize(s: &[u8]) -> (r: Vec<Vec<u8>>)
    ensures
        crate::name::labels_view(r) == ws_tokens(s@),
{
    let mut tokens: Vec<Vec<u8>> = Vec::new();
    let mut pos: usize = 0;
    proof {
        assert(crate::name::labels_view(tokens) =~= Seq::<Seq<u8>>::empty());
        assert(s@.skip(0) =~= s@);
    }
    while pos < s.len()
        invariant
            pos <= s@.len(),
            ws_tokens(s@) == crate::name::labels_view(tokens) + ws_tokens(s@.skip(pos as int)),
        decreases s@.len() - pos,
    {
        let b = s[pos];
        if b == SPACE || b == TAB || b == NEWLINE || b == CARRIAGE_RETURN {
            proof {
                assert(s@.skip(pos as int).skip(1) =~= s@.skip(pos as int + 1));
            }
            pos += 1;
        } else {
            let ghost tail = s@.skip(pos as int);
            let end = match first_ws_in(s, pos) {
                Some(k) => k,
                None => s.len(),
            };
            let tok = copy_range(s, pos, end);
            proof {
                assert(tail[0] == b);
                assert(!is_ws(tail[0]));
                assert(tok@ =~= tail.subrange(0, end - pos));
                if end < s.len() {
                    lemma_first_ws_char(tail);
                    assert(0 < end - pos);
                    assert(tail.skip(end - pos) =~= s@.skip(end as int));
                    assert(ws_tokens(tail) == seq![tok@] + ws_tokens(s@.skip(end as int)));
                } else {
                    assert(tok@ =~= tail);
                    assert(ws_tokens(tail) == seq![tail]);
                    assert(s@.skip(s@.len() as int) =~= Seq::<u8>::empty());
                }
                let lv = crate::name::labels_view(tokens);
                assert(lv + (seq![tok@] + ws_tokens(s@.skip(end as int))) =~= (lv + seq![tok@])
                    + ws_tokens(s@.skip(end as int)));
            }
            let ghost pre = crate::name::labels_view(tokens);
            let ghost tv = tok@;
            tokens.push(tok);
            proof {
                assert(crate::name::labels_view(tokens) =~= pre + seq![tv]);
            }
            pos = end;
        }
    }
    proof {
        assert(s@.skip(pos as int) =~= Seq::<u8>::empty());
        assert(crate::name::labels_view(tokens) + ws_tokens(Seq::<u8>::empty())
            =~= crate::name::labels_view(tokens));
    }
    tokens
}

} // verus!

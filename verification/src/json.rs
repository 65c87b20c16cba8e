//! Byte-level JSON primitives for the wire protocol: escaping and
//! unescaping of string bodies, whitespace and number scanning, and
//! value skipping. Every executable parser returns exactly what its
//! specification twin defines on the same bytes.

use vstd::prelude::*;

verus! {

pub open spec fn is_digit(b: u8) -> bool {
    48 <= b <= 57
}

/// JSON insignificant whitespace: space, tab, carriage return, line feed.
pub open spec fn is_json_ws(b: u8) -> bool {
    b == 32 || b == 9 || b == 13 || b == 10
}

/// First position at or after `i` holding no whitespace byte.
pub open spec fn spec_ws(s: Seq<u8>, i: int) -> int
    decreases s.len() - i,
{
    if 0 <= i < s.len() && is_json_ws(s[i]) {
        spec_ws(s, i + 1)
    } else {
        i
    }
}

pub proof fn lemma_ws_bounds(s: Seq<u8>, i: int)
    requires
        0 <= i <= s.len(),
    ensures
        i <= spec_ws(s, i) <= s.len(),
    decreases s.len() - i,
{
    if i < s.len() && is_json_ws(s[i]) {
        lemma_ws_bounds(s, i + 1);
    }
}

/// Skips whitespace; returns exactly the position its specification gives.
pub fn ws(s: &[u8], i: usize) -> (r: usize)
    requires
        i <= s@.len(),
    ensures
        r == spec_ws(s@, i as int),
        i <= r <= s@.len(),
{
    let n = s.len();
    let mut j = i;
    loop
        invariant
            i <= j <= n == s@.len(),
            spec_ws(s@, i as int) == spec_ws(s@, j as int),
        ensures
            i <= j <= s@.len(),
            j == spec_ws(s@, i as int),
        decreases n - j,
    {
        if j >= n {
            break ;
        }
        let b = s[j];
        if !(b == 32 || b == 9 || b == 13 || b == 10) {
            break ;
        }
        j += 1;
    }
    j
}

/// First position at or after `i` holding no digit.
pub open spec fn skip_digits(s: Seq<u8>, i: int) -> int
    decreases s.len() - i,
{
    if 0 <= i < s.len() && is_digit(s[i]) {
        skip_digits(s, i + 1)
    } else {
        i
    }
}

pub proof fn lemma_skip_digits_bounds(s: Seq<u8>, i: int)
    requires
        0 <= i <= s.len(),
    ensures
        i <= skip_digits(s, i) <= s.len(),
        forall|k: int| i <= k < skip_digits(s, i) ==> is_digit(s[k]),
        skip_digits(s, i) < s.len() ==> !is_digit(s[skip_digits(s, i)]),
    decreases s.len() - i,
{
    if i < s.len() && is_digit(s[i]) {
        lemma_skip_digits_bounds(s, i + 1);
    }
}

/// Skips digits; returns exactly the position its specification gives.
pub fn digits(s: &[u8], i: usize) -> (r: usize)
    requires
        i <= s@.len(),
    ensures
        r == skip_digits(s@, i as int),
        i <= r <= s@.len(),
{
    let n = s.len();
    let mut j = i;
    loop
        invariant
            i <= j <= n == s@.len(),
            skip_digits(s@, i as int) == skip_digits(s@, j as int),
        ensures
            i <= j <= s@.len(),
            j == skip_digits(s@, i as int),
        decreases n - j,
    {
        if j >= n {
            break ;
        }
        let b = s[j];
        if !(48 <= b && b <= 57) {
            break ;
        }
        j += 1;
    }
    j
}

/// Value of a hexadecimal digit byte.
pub open spec fn hex_val(b: u8) -> Option<u8> {
    if 48 <= b <= 57 {
        Some((b - 48) as u8)
    } else if 97 <= b <= 102 {
        Some((b - 87) as u8)
    } else if 65 <= b <= 70 {
        Some((b - 55) as u8)
    } else {
        None
    }
}

fn hex_digit(b: u8) -> (r: Option<u8>)
    ensures
        r == hex_val(b),
        r is Some ==> r->Some_0 < 16,
{
    if 48 <= b && b <= 57 {
        Some(b - 48)
    } else if 97 <= b && b <= 102 {
        Some(b - 87)
    } else if 65 <= b && b <= 70 {
        Some(b - 55)
    } else {
        None
    }
}

/// The byte a single-character escape stands for.
pub open spec fn esc_map(e: u8) -> Option<u8> {
    if e == 34 {
        Some(34u8)
    } else if e == 92 {
        Some(92u8)
    } else if e == 47 {
        Some(47u8)
    } else if e == 110 {
        Some(10u8)
    } else if e == 114 {
        Some(13u8)
    } else if e == 116 {
        Some(9u8)
    } else if e == 98 {
        Some(8u8)
    } else if e == 102 {
        Some(12u8)
    } else {
        None
    }
}

fn esc_unmap(e: u8) -> (r: Option<u8>)
    ensures
        r == esc_map(e),
{
    if e == 34 {
        Some(34)
    } else if e == 92 {
        Some(92)
    } else if e == 47 {
        Some(47)
    } else if e == 110 {
        Some(10)
    } else if e == 114 {
        Some(13)
    } else if e == 116 {
        Some(9)
    } else if e == 98 {
        Some(8)
    } else if e == 102 {
        Some(12)
    } else {
        None
    }
}

/// Parses a JSON string body starting just after the opening quote:
/// yields the unescaped content and the position just past the closing
/// quote. Unicode escapes are recognized in the ASCII range only; a raw
/// control byte or an unknown escape fails the parse.
pub open spec fn spec_string_body(s: Seq<u8>, i: int) -> Option<(Seq<u8>, int)>
    decreases s.len() - i,
{
    if !(0 <= i < s.len()) {
        None
    } else if s[i] == 34 {
        Some((Seq::empty(), i + 1))
    } else if s[i] == 92 {
        if i + 2 > s.len() {
            None
        } else {
            let e = s[i + 1];
            if e == 117 {
                if i + 6 > s.len() {
                    None
                } else {
                    match (hex_val(s[i + 2]), hex_val(s[i + 3]), hex_val(s[i + 4]), hex_val(
                        s[i + 5],
                    )) {
                        (Some(h3), Some(h2), Some(h1), Some(h0)) => {
                            let v = h3 * 4096 + h2 * 256 + h1 * 16 + h0;
                            if v < 128 {
                                match spec_string_body(s, i + 6) {
                                    Some((c, j)) => Some((seq![v as u8] + c, j)),
                                    None => None,
                                }
                            } else {
                                None
                            }
                        },
                        _ => None,
                    }
                }
            } else {
                match esc_map(e) {
                    Some(b) => match spec_string_body(s, i + 2) {
                        Some((c, j)) => Some((seq![b] + c, j)),
                        None => None,
                    },
                    None => None,
                }
            }
        }
    } else if s[i] < 32 {
        None
    } else {
        match spec_string_body(s, i + 1) {
            Some((c, j)) => Some((seq![s[i]] + c, j)),
            None => None,
        }
    }
}

pub proof fn lemma_string_body_bounds(s: Seq<u8>, i: int)
    requires
        0 <= i <= s.len(),
    ensures
        match spec_string_body(s, i) {
            Some((c, j)) => i < j <= s.len(),
            None => true,
        },
    decreases s.len() - i,
{
    if 0 <= i < s.len() {
        if s[i] == 34 {
        } else if s[i] == 92 {
            if i + 2 <= s.len() {
                if s[i + 1] == 117 {
                    if i + 6 <= s.len() {
                        lemma_string_body_bounds(s, i + 6);
                    }
                } else {
                    lemma_string_body_bounds(s, i + 2);
                }
            }
        } else if s[i] >= 32 {
            lemma_string_body_bounds(s, i + 1);
        }
    }
}

/// Glues an already-unescaped prefix onto a string-body parse.
pub open spec fn prepend_body(pre: Seq<u8>, r: Option<(Seq<u8>, int)>) -> Option<(Seq<u8>, int)> {
    match r {
        Some((c, j)) => Some((pre + c, j)),
        None => None,
    }
}

/// Unescapes a string body; returns exactly what its specification gives.
pub fn string_body(s: &[u8], i: usize) -> (r: Option<(Vec<u8>, usize)>)
    requires
        i <= s@.len(),
    ensures
        match (r, spec_string_body(s@, i as int)) {
            (Some(p), Some(q)) => p.0@ == q.0 && p.1 == q.1,
            (None, None) => true,
            _ => false,
        },
{
    let n = s.len();
    let mut j = i;
    let mut acc: Vec<u8> = Vec::new();
    proof {
        assert(spec_string_body(s@, i as int) == prepend_body(acc@, spec_string_body(s@, i as int)))
            by {
            match spec_string_body(s@, i as int) {
                Some((c, jj)) => {
                    assert(acc@ + c =~= c);
                },
                None => {},
            }
        }
    }
    loop
        invariant
            i <= j <= n == s@.len(),
            spec_string_body(s@, i as int) == prepend_body(acc@, spec_string_body(s@, j as int)),
        decreases n - j,
    {
        if j >= n {
            return None;
        }
        let b = s[j];
        if b == 34 {
            proof {
                assert(spec_string_body(s@, j as int) == Some(
                    (Seq::<u8>::empty(), j + 1 as int),
                ));
                assert(acc@ + Seq::<u8>::empty() =~= acc@);
            }
            return Some((acc, j + 1));
        }
        if b == 92 {
            if j + 1 >= n {
                proof {
                    assert(spec_string_body(s@, j as int) is None);
                }
                return None;
            }
            let e = s[j + 1];
            if e == 117 {
                if n - j < 6 {
                    proof {
                        assert(spec_string_body(s@, j as int) is None);
                    }
                    return None;
                }
                let h3 = match hex_digit(s[j + 2]) {
                    Some(v) => v,
                    None => {
                        return None;
                    },
                };
                let h2 = match hex_digit(s[j + 3]) {
                    Some(v) => v,
                    None => {
                        return None;
                    },
                };
                let h1 = match hex_digit(s[j + 4]) {
                    Some(v) => v,
                    None => {
                        return None;
                    },
                };
                let h0 = match hex_digit(s[j + 5]) {
                    Some(v) => v,
                    None => {
                        return None;
                    },
                };
                let v: u32 = (h3 as u32) * 4096 + (h2 as u32) * 256 + (h1 as u32) * 16 + (
                h0 as u32);
                if v >= 128 {
                    return None;
                }
                let ghost accold = acc@;
                acc.push(v as u8);
                proof {
                    match spec_string_body(s@, j + 6 as int) {
                        Some((c, jj)) => {
                            assert(acc@ + c =~= accold + (seq![v as u8] + c));
                        },
                        None => {},
                    }
                }
                j += 6;
            } else {
                let m = match esc_unmap(e) {
                    Some(x) => x,
                    None => {
                        return None;
                    },
                };
                let ghost accold = acc@;
                acc.push(m);
                proof {
                    match spec_string_body(s@, j + 2 as int) {
                        Some((c, jj)) => {
                            assert(acc@ + c =~= accold + (seq![m] + c));
                        },
                        None => {},
                    }
                }
                j += 2;
            }
        } else if b < 32 {
            return None;
        } else {
            let ghost accold = acc@;
            acc.push(b);
            proof {
                match spec_string_body(s@, j + 1 as int) {
                    Some((c, jj)) => {
                        assert(acc@ + c =~= accold + (seq![b] + c));
                    },
                    None => {},
                }
            }
            j += 1;
        }
    }
}

/// Position after an optional JSON fraction part at `i`.
pub open spec fn spec_frac(s: Seq<u8>, i: int) -> Option<int> {
    if 0 <= i < s.len() && s[i] == 46 {
        if i + 1 < s.len() && is_digit(s[i + 1]) {
            Some(skip_digits(s, i + 1))
        } else {
            None
        }
    } else {
        Some(i)
    }
}

/// Position after an optional JSON exponent part at `i`.
pub open spec fn spec_exp(s: Seq<u8>, i: int) -> Option<int> {
    if 0 <= i < s.len() && (s[i] == 101 || s[i] == 69) {
        let i1 = if i + 1 < s.len() && (s[i + 1] == 43 || s[i + 1] == 45) {
            i + 2
        } else {
            i + 1
        };
        if i1 < s.len() && is_digit(s[i1]) {
            Some(skip_digits(s, i1))
        } else {
            None
        }
    } else {
        Some(i)
    }
}

/// Position after a JSON number starting at `i`, if one starts there.
pub open spec fn spec_number(s: Seq<u8>, i: int) -> Option<int> {
    if !(0 <= i < s.len()) {
        None
    } else {
        let i1 = if s[i] == 45 {
            i + 1
        } else {
            i
        };
        if !(i1 < s.len() && is_digit(s[i1])) {
            None
        } else {
            let i2 = if s[i1] == 48 {
                i1 + 1
            } else {
                skip_digits(s, i1)
            };
            if i2 < s.len() && is_digit(s[i2]) {
                None
            } else {
                match spec_frac(s, i2) {
                    None => None,
                    Some(i3) => spec_exp(s, i3),
                }
            }
        }
    }
}

pub proof fn lemma_number_bounds(s: Seq<u8>, i: int)
    requires
        0 <= i <= s.len(),
    ensures
        match spec_number(s, i) {
            Some(j) => i < j <= s.len(),
            None => true,
        },
{
    if 0 <= i < s.len() {
        let i1 = if s[i] == 45 {
            i + 1
        } else {
            i
        };
        if i1 < s.len() && is_digit(s[i1]) {
            lemma_skip_digits_bounds(s, i1);
            let i2 = if s[i1] == 48 {
                i1 + 1
            } else {
                skip_digits(s, i1)
            };
            assert(i1 < i2 <= s.len());
            if !(i2 < s.len() && is_digit(s[i2])) {
                match spec_frac(s, i2) {
                    None => {},
                    Some(i3) => {
                        if i2 < s.len() && s[i2] == 46 {
                            lemma_skip_digits_bounds(s, i2 + 1);
                        }
                        assert(i2 <= i3 <= s.len());
                        match spec_exp(s, i3) {
                            None => {},
                            Some(i4) => {
                                if i3 < s.len() && (s[i3] == 101 || s[i3] == 69) {
                                    if i3 + 1 < s.len() && (s[i3 + 1] == 43 || s[i3 + 1] == 45) {
                                        lemma_skip_digits_bounds(s, i3 + 2);
                                    } else {
                                        lemma_skip_digits_bounds(s, i3 + 1);
                                    }
                                }
                                assert(i3 <= i4 <= s.len());
                            },
                        }
                    },
                }
            }
        }
    }
}

/// Scans a JSON number; returns exactly what its specification gives.
pub fn number(s: &[u8], i: usize) -> (r: Option<usize>)
    requires
        i <= s@.len(),
    ensures
        match (r, spec_number(s@, i as int)) {
            (Some(a), Some(b)) => a == b && i < a <= s@.len(),
            (None, None) => true,
            _ => false,
        },
{
    proof {
        lemma_number_bounds(s@, i as int);
    }
    let n = s.len();
    if i >= n {
        return None;
    }
    let i1 = if s[i] == 45 {
        i + 1
    } else {
        i
    };
    if i1 >= n {
        return None;
    }
    if !(48 <= s[i1] && s[i1] <= 57) {
        return None;
    }
    let i2 = if s[i1] == 48 {
        i1 + 1
    } else {
        digits(s, i1)
    };
    proof {
        lemma_skip_digits_bounds(s@, i1 as int);
    }
    if i2 < n && 48 <= s[i2] && s[i2] <= 57 {
        return None;
    }
    let i3 = if i2 < n && s[i2] == 46 {
        if i2 + 1 < n && 48 <= s[i2 + 1] && s[i2 + 1] <= 57 {
            digits(s, i2 + 1)
        } else {
            return None;
        }
    } else {
        i2
    };
    proof {
        assert(spec_frac(s@, i2 as int) == Some(i3 as int));
    }
    let i4 = if i3 < n && (s[i3] == 101 || s[i3] == 69) {
        let ie = if i3 + 1 < n && (s[i3 + 1] == 43 || s[i3 + 1] == 45) {
            i3 + 2
        } else {
            i3 + 1
        };
        if ie < n && 48 <= s[ie] && s[ie] <= 57 {
            digits(s, ie)
        } else {
            return None;
        }
    } else {
        i3
    };
    proof {
        assert(spec_exp(s@, i3 as int) == Some(i4 as int));
    }
    Some(i4)
}

pub open spec fn pow10(n: nat) -> int
    decreases n,
{
    if n == 0 {
        1
    } else {
        10 * pow10((n - 1) as nat)
    }
}

pub proof fn lemma_pow10_pos(n: nat)
    ensures
        pow10(n) >= 1,
    decreases n,
{
    if n > 0 {
        lemma_pow10_pos((n - 1) as nat);
    }
}

pub proof fn lemma_pow10_mono(a: nat, b: nat)
    requires
        a <= b,
    ensures
        pow10(a) <= pow10(b),
    decreases b,
{
    if a < b {
        lemma_pow10_mono(a, (b - 1) as nat);
        lemma_pow10_pos((b - 1) as nat);
    }
}

/// The numeric value of the digit span `[i, j)`.
pub open spec fn span_val(s: Seq<u8>, i: int, j: int) -> int
    decreases j - i,
{
    if j <= i {
        0
    } else {
        span_val(s, i, j - 1) * 10 + (s[j - 1] - 48)
    }
}

pub open spec fn all_digits(s: Seq<u8>, i: int, j: int) -> bool {
    forall|k: int| i <= k < j ==> is_digit(s[k])
}

pub proof fn lemma_span_val_bounds(s: Seq<u8>, i: int, j: int)
    requires
        0 <= i <= j <= s.len(),
        all_digits(s, i, j),
    ensures
        0 <= span_val(s, i, j) < pow10((j - i) as nat),
    decreases j - i,
{
    if j > i {
        lemma_span_val_bounds(s, i, j - 1);
        assert(pow10((j - i) as nat) == 10 * pow10((j - i - 1) as nat));
    }
}

pub proof fn lemma_span_lower(s: Seq<u8>, i: int, j: int)
    requires
        0 <= i < j <= s.len(),
        all_digits(s, i, j),
        s[i] >= 49,
    ensures
        span_val(s, i, j) >= pow10((j - i - 1) as nat),
    decreases j - i,
{
    if j - 1 == i {
        assert(span_val(s, i, i) == 0);
        assert(span_val(s, i, j) == s[i] - 48);
    } else {
        lemma_span_lower(s, i, j - 1);
        assert(pow10((j - i - 1) as nat) == 10 * pow10((j - i - 2) as nat));
        lemma_span_val_bounds(s, i, j - 1);
    }
}

pub proof fn lemma_span_skip_zeros(s: Seq<u8>, i: int, i2: int, j: int)
    requires
        0 <= i <= i2 <= j <= s.len(),
        forall|k: int| i <= k < i2 ==> s[k] == 48,
    ensures
        span_val(s, i, j) == span_val(s, i2, j),
    decreases j - i,
{
    if j <= i2 {
        assert(forall|k: int| i <= k < j ==> s[k] == 48);
        lemma_span_zeros(s, i, j);
    } else {
        lemma_span_skip_zeros(s, i, i2, j - 1);
    }
}

pub proof fn lemma_span_zeros(s: Seq<u8>, i: int, j: int)
    requires
        0 <= i <= j <= s.len(),
        forall|k: int| i <= k < j ==> s[k] == 48,
    ensures
        span_val(s, i, j) == 0,
    decreases j - i,
{
    if j > i {
        lemma_span_zeros(s, i, j - 1);
    }
}

/// The exact mathematical reading of the span `[i, j)` as a signed
/// 64-bit integer: an optional minus sign, then digits only, and the
/// value within range; anything else gives nothing.
pub open spec fn spec_i64_span(s: Seq<u8>, i: int, j: int) -> Option<int> {
    if !(0 <= i < j <= s.len()) {
        None
    } else {
        let neg = s[i] == 45;
        let i1 = if neg {
            i + 1
        } else {
            i
        };
        if i1 >= j || !all_digits(s, i1, j) {
            None
        } else {
            let v = span_val(s, i1, j);
            let sv = if neg {
                -v
            } else {
                v
            };
            if -9223372036854775808 <= sv <= 9223372036854775807 {
                Some(sv)
            } else {
                None
            }
        }
    }
}

/// Reads the span `[i, j)` as an `i64`; returns exactly what its
/// specification gives.
pub fn i64_span(s: &[u8], i: usize, j: usize) -> (r: Option<i64>)
    requires
        j <= s@.len(),
    ensures
        match (r, spec_i64_span(s@, i as int, j as int)) {
            (Some(a), Some(b)) => a as int == b,
            (None, None) => true,
            _ => false,
        },
{
    let n = s.len();
    if !(i < j) {
        return None;
    }
    let neg = s[i] == 45;
    let i1 = if neg {
        i + 1
    } else {
        i
    };
    if i1 >= j {
        return None;
    }
    let mut k = i1;
    loop
        invariant
            i < j,
            i1 == if s@[i as int] == 45 {
                i as int + 1
            } else {
                i as int
            },
            i1 <= k <= j <= s@.len(),
            forall|t: int| i1 <= t < k ==> is_digit(s@[t]),
        ensures
            k == j,
            all_digits(s@, i1 as int, j as int),
        decreases j - k,
    {
        if k >= j {
            break ;
        }
        if !(48 <= s[k] && s[k] <= 57) {
            proof {
                assert(!is_digit(s@[k as int]));
                assert(!all_digits(s@, i1 as int, j as int));
            }
            return None;
        }
        k += 1;
    }
    let mut z = i1;
    loop
        invariant
            i1 <= z <= j <= s@.len(),
            all_digits(s@, i1 as int, j as int),
            forall|t: int| i1 <= t < z ==> s@[t] == 48,
        ensures
            i1 <= z <= j,
            forall|t: int| i1 <= t < z ==> s@[t] == 48,
            z < j ==> s@[z as int] != 48,
        decreases j - z,
    {
        if z >= j {
            break ;
        }
        if s[z] != 48 {
            break ;
        }
        z += 1;
    }
    proof {
        lemma_span_skip_zeros(s@, i1 as int, z as int, j as int);
        reveal_with_fuel(pow10, 21);
    }
    if j - z > 19 {
        proof {
            assert(z < j);
            assert(is_digit(s@[z as int]) && s@[z as int] != 48);
            lemma_span_lower(s@, z as int, j as int);
            lemma_pow10_mono(19nat, (j - z - 1) as nat);
            assert(span_val(s@, z as int, j as int) >= 10000000000000000000);
        }
        return None;
    }
    let mut m: u64 = 0;
    let mut k2 = z;
    loop
        invariant
            z <= k2 <= j <= s@.len(),
            all_digits(s@, i1 as int, j as int),
            i1 <= z,
            j - z <= 19,
            m == span_val(s@, z as int, k2 as int),
        ensures
            m == span_val(s@, z as int, j as int),
        decreases j - k2,
    {
        if k2 >= j {
            break ;
        }
        let d = s[k2] - 48;
        proof {
            reveal_with_fuel(pow10, 21);
            lemma_span_val_bounds(s@, z as int, k2 as int);
            lemma_pow10_mono((k2 - z) as nat, 18nat);
            assert(m < 1000000000000000000);
        }
        m = m * 10 + (d as u64);
        k2 += 1;
    }
    if neg {
        if m > 9223372036854775808u64 {
            return None;
        }
        if m == 9223372036854775808u64 {
            return Some(i64::MIN);
        }
        Some(-(m as i64))
    } else {
        if m > 9223372036854775807u64 {
            return None;
        }
        Some(m as i64)
    }
}

/// A four-byte literal at `i`.
pub open spec fn spec_lit4(s: Seq<u8>, i: int, a: u8, b: u8, c: u8, d: u8) -> Option<int> {
    if 0 <= i && i + 4 <= s.len() && s[i] == a && s[i + 1] == b && s[i + 2] == c && s[i + 3] == d {
        Some(i + 4)
    } else {
        None
    }
}

/// A five-byte literal at `i`.
pub open spec fn spec_lit5(s: Seq<u8>, i: int, a: u8, b: u8, c: u8, d: u8, e: u8) -> Option<int> {
    if 0 <= i && i + 5 <= s.len() && s[i] == a && s[i + 1] == b && s[i + 2] == c && s[i + 3] == d
        && s[i + 4] == e {
        Some(i + 5)
    } else {
        None
    }
}

/// Position after one complete JSON value starting at `i`. The fuel
/// bounds the recursion; a value can nest at most one level per byte it
/// occupies, so a fuel above the sequence length never runs out.
pub open spec fn spec_value(s: Seq<u8>, i: int, f: nat) -> Option<int>
    decreases f,
{
    if f == 0 {
        None
    } else if !(0 <= i < s.len()) {
        None
    } else {
        let c = s[i];
        if c == 34 {
            match spec_string_body(s, i + 1) {
                Some((c0, j)) => Some(j),
                None => None,
            }
        } else if c == 123 {
            spec_obj_rest(s, spec_ws(s, i + 1), (f - 1) as nat)
        } else if c == 91 {
            spec_arr_rest(s, spec_ws(s, i + 1), (f - 1) as nat)
        } else if c == 116 {
            spec_lit4(s, i, 116, 114, 117, 101)
        } else if c == 102 {
            spec_lit5(s, i, 102, 97, 108, 115, 101)
        } else if c == 110 {
            spec_lit4(s, i, 110, 117, 108, 108)
        } else {
            spec_number(s, i)
        }
    }
}

/// Position after the remainder of an object whose opening brace and
/// following whitespace are already consumed.
pub open spec fn spec_obj_rest(s: Seq<u8>, i: int, f: nat) -> Option<int>
    decreases f,
{
    if f == 0 {
        None
    } else if !(0 <= i < s.len()) {
        None
    } else if s[i] == 125 {
        Some(i + 1)
    } else {
        spec_obj_members(s, i, (f - 1) as nat)
    }
}

/// Position after one or more `key: value` members and the closing brace.
pub open spec fn spec_obj_members(s: Seq<u8>, i: int, f: nat) -> Option<int>
    decreases f,
{
    if f == 0 {
        None
    } else if !(0 <= i < s.len() && s[i] == 34) {
        None
    } else {
        match spec_string_body(s, i + 1) {
            None => None,
            Some((k, j1)) => {
                let j2 = spec_ws(s, j1);
                if !(j2 < s.len() && s[j2] == 58) {
                    None
                } else {
                    match spec_value(s, spec_ws(s, j2 + 1), (f - 1) as nat) {
                        None => None,
                        Some(j3) => {
                            let j4 = spec_ws(s, j3);
                            if !(j4 < s.len()) {
                                None
                            } else if s[j4] == 44 {
                                spec_obj_members(s, spec_ws(s, j4 + 1), (f - 1) as nat)
                            } else if s[j4] == 125 {
                                Some(j4 + 1)
                            } else {
                                None
                            }
                        },
                    }
                }
            },
        }
    }
}

/// Position after the remainder of an array whose opening bracket and
/// following whitespace are already consumed.
pub open spec fn spec_arr_rest(s: Seq<u8>, i: int, f: nat) -> Option<int>
    decreases f,
{
    if f == 0 {
        None
    } else if !(0 <= i < s.len()) {
        None
    } else if s[i] == 93 {
        Some(i + 1)
    } else {
        spec_arr_elems(s, i, (f - 1) as nat)
    }
}

/// Position after one or more array elements and the closing bracket.
pub open spec fn spec_arr_elems(s: Seq<u8>, i: int, f: nat) -> Option<int>
    decreases f,
{
    if f == 0 {
        None
    } else {
        match spec_value(s, i, (f - 1) as nat) {
            None => None,
            Some(j) => {
                let j2 = spec_ws(s, j);
                if !(j2 < s.len()) {
                    None
                } else if s[j2] == 44 {
                    spec_arr_elems(s, spec_ws(s, j2 + 1), (f - 1) as nat)
                } else if s[j2] == 93 {
                    Some(j2 + 1)
                } else {
                    None
                }
            },
        }
    }
}

pub proof fn lemma_value_bounds(s: Seq<u8>, i: int, f: nat)
    ensures
        match spec_value(s, i, f) {
            Some(j) => i < j <= s.len(),
            None => true,
        },
    decreases f,
{
    if f > 0 && 0 <= i < s.len() {
        let c = s[i];
        if c == 34 {
            lemma_string_body_bounds(s, i + 1);
        } else if c == 123 {
            lemma_ws_bounds(s, i + 1);
            lemma_obj_rest_bounds(s, spec_ws(s, i + 1), (f - 1) as nat);
        } else if c == 91 {
            lemma_ws_bounds(s, i + 1);
            lemma_arr_rest_bounds(s, spec_ws(s, i + 1), (f - 1) as nat);
        } else if c == 116 || c == 102 || c == 110 {
        } else {
            lemma_number_bounds(s, i);
        }
    }
}

pub proof fn lemma_obj_rest_bounds(s: Seq<u8>, i: int, f: nat)
    requires
        0 <= i,
    ensures
        match spec_obj_rest(s, i, f) {
            Some(j) => i < j <= s.len(),
            None => true,
        },
    decreases f,
{
    if f > 0 && i < s.len() && s[i] != 125 {
        lemma_obj_members_bounds(s, i, (f - 1) as nat);
    }
}

pub proof fn lemma_obj_members_bounds(s: Seq<u8>, i: int, f: nat)
    requires
        0 <= i,
    ensures
        match spec_obj_members(s, i, f) {
            Some(j) => i < j <= s.len(),
            None => true,
        },
    decreases f,
{
    if f > 0 && 0 <= i < s.len() && s[i] == 34 {
        lemma_string_body_bounds(s, i + 1);
        match spec_string_body(s, i + 1) {
            None => {},
            Some((k, j1)) => {
                lemma_ws_bounds(s, j1);
                let j2 = spec_ws(s, j1);
                if j2 < s.len() && s[j2] == 58 {
                    lemma_ws_bounds(s, j2 + 1);
                    lemma_value_bounds(s, spec_ws(s, j2 + 1), (f - 1) as nat);
                    match spec_value(s, spec_ws(s, j2 + 1), (f - 1) as nat) {
                        None => {},
                        Some(j3) => {
                            lemma_ws_bounds(s, j3);
                            let j4 = spec_ws(s, j3);
                            if j4 < s.len() && s[j4] == 44 {
                                lemma_ws_bounds(s, j4 + 1);
                                lemma_obj_members_bounds(s, spec_ws(s, j4 + 1), (f - 1) as nat);
                            }
                        },
                    }
                }
            },
        }
    }
}

pub proof fn lemma_arr_rest_bounds(s: Seq<u8>, i: int, f: nat)
    requires
        0 <= i,
    ensures
        match spec_arr_rest(s, i, f) {
            Some(j) => i < j <= s.len(),
            None => true,
        },
    decreases f,
{
    if f > 0 && i < s.len() && s[i] != 93 {
        lemma_arr_elems_bounds(s, i, (f - 1) as nat);
    }
}

pub proof fn lemma_arr_elems_bounds(s: Seq<u8>, i: int, f: nat)
    requires
        0 <= i,
    ensures
        match spec_arr_elems(s, i, f) {
            Some(j) => i < j <= s.len(),
            None => true,
        },
    decreases f,
{
    if f > 0 {
        lemma_value_bounds(s, i, (f - 1) as nat);
        match spec_value(s, i, (f - 1) as nat) {
            None => {},
            Some(j) => {
                lemma_ws_bounds(s, j);
                let j2 = spec_ws(s, j);
                if j2 < s.len() && s[j2] == 44 {
                    lemma_ws_bounds(s, j2 + 1);
                    lemma_arr_elems_bounds(s, spec_ws(s, j2 + 1), (f - 1) as nat);
                }
            },
        }
    }
}

/// Skips one JSON value; returns exactly what its specification gives.
pub fn skip_value(s: &[u8], i: usize, f: usize) -> (r: Option<usize>)
    requires
        i <= s@.len(),
    ensures
        match (r, spec_value(s@, i as int, f as nat)) {
            (Some(a), Some(b)) => a == b && i < a <= s@.len(),
            (None, None) => true,
            _ => false,
        },
    decreases f,
{
    proof {
        lemma_value_bounds(s@, i as int, f as nat);
    }
    if f == 0 {
        return None;
    }
    let n = s.len();
    if i >= n {
        return None;
    }
    let c = s[i];
    if c == 34 {
        match string_body(s, i + 1) {
            Some(p) => Some(p.1),
            None => None,
        }
    } else if c == 123 {
        let j = ws(s, i + 1);
        skip_obj_rest(s, j, f - 1)
    } else if c == 91 {
        let j = ws(s, i + 1);
        skip_arr_rest(s, j, f - 1)
    } else if c == 116 {
        if n - i >= 4 && s[i + 1] == 114 && s[i + 2] == 117 && s[i + 3] == 101 {
            Some(i + 4)
        } else {
            None
        }
    } else if c == 102 {
        if n - i >= 5 && s[i + 1] == 97 && s[i + 2] == 108 && s[i + 3] == 115 && s[i + 4] == 101 {
            Some(i + 5)
        } else {
            None
        }
    } else if c == 110 {
        if n - i >= 4 && s[i + 1] == 117 && s[i + 2] == 108 && s[i + 3] == 108 {
            Some(i + 4)
        } else {
            None
        }
    } else {
        number(s, i)
    }
}

fn skip_obj_rest(s: &[u8], i: usize, f: usize) -> (r: Option<usize>)
    requires
        i <= s@.len(),
    ensures
        match (r, spec_obj_rest(s@, i as int, f as nat)) {
            (Some(a), Some(b)) => a == b && i < a <= s@.len(),
            (None, None) => true,
            _ => false,
        },
    decreases f,
{
    proof {
        lemma_obj_rest_bounds(s@, i as int, f as nat);
    }
    if f == 0 {
        return None;
    }
    if i >= s.len() {
        return None;
    }
    if s[i] == 125 {
        Some(i + 1)
    } else {
        skip_obj_members(s, i, f - 1)
    }
}

fn skip_obj_members(s: &[u8], i: usize, f: usize) -> (r: Option<usize>)
    requires
        i <= s@.len(),
    ensures
        match (r, spec_obj_members(s@, i as int, f as nat)) {
            (Some(a), Some(b)) => a == b && i < a <= s@.len(),
            (None, None) => true,
            _ => false,
        },
    decreases f,
{
    proof {
        lemma_obj_members_bounds(s@, i as int, f as nat);
    }
    if f == 0 {
        return None;
    }
    if i >= s.len() {
        return None;
    }
    if s[i] != 34 {
        return None;
    }
    let j1 = match string_body(s, i + 1) {
        Some(p) => p.1,
        None => {
            return None;
        },
    };
    proof {
        lemma_string_body_bounds(s@, i + 1 as int);
    }
    let j2 = ws(s, j1);
    if !(j2 < s.len()) {
        return None;
    }
    if s[j2] != 58 {
        return None;
    }
    let v0 = ws(s, j2 + 1);
    let j3 = match skip_value(s, v0, f - 1) {
        Some(j) => j,
        None => {
            return None;
        },
    };
    let j4 = ws(s, j3);
    if !(j4 < s.len()) {
        return None;
    }
    if s[j4] == 44 {
        let nx = ws(s, j4 + 1);
        skip_obj_members(s, nx, f - 1)
    } else if s[j4] == 125 {
        Some(j4 + 1)
    } else {
        None
    }
}

fn skip_arr_rest(s: &[u8], i: usize, f: usize) -> (r: Option<usize>)
    requires
        i <= s@.len(),
    ensures
        match (r, spec_arr_rest(s@, i as int, f as nat)) {
            (Some(a), Some(b)) => a == b && i < a <= s@.len(),
            (None, None) => true,
            _ => false,
        },
    decreases f,
{
    proof {
        lemma_arr_rest_bounds(s@, i as int, f as nat);
    }
    if f == 0 {
        return None;
    }
    if i >= s.len() {
        return None;
    }
    if s[i] == 93 {
        Some(i + 1)
    } else {
        skip_arr_elems(s, i, f - 1)
    }
}

fn skip_arr_elems(s: &[u8], i: usize, f: usize) -> (r: Option<usize>)
    requires
        i <= s@.len(),
    ensures
        match (r, spec_arr_elems(s@, i as int, f as nat)) {
            (Some(a), Some(b)) => a == b && i < a <= s@.len(),
            (None, None) => true,
            _ => false,
        },
    decreases f,
{
    proof {
        lemma_arr_elems_bounds(s@, i as int, f as nat);
    }
    if f == 0 {
        return None;
    }
    let j = match skip_value(s, i, f - 1) {
        Some(j) => j,
        None => {
            return None;
        },
    };
    let j2 = ws(s, j);
    if !(j2 < s.len()) {
        return None;
    }
    if s[j2] == 44 {
        let nx = ws(s, j2 + 1);
        skip_arr_elems(s, nx, f - 1)
    } else if s[j2] == 93 {
        Some(j2 + 1)
    } else {
        None
    }
}

/// The value of a hexadecimal digit, as its lowercase character byte.
pub open spec fn hex_char(n: u8) -> u8 {
    if n < 10 {
        (48 + n) as u8
    } else {
        (87 + n) as u8
    }
}

fn hexc(n: u8) -> (r: u8)
    requires
        n < 16,
    ensures
        r == hex_char(n),
{
    if n < 10 {
        48 + n
    } else {
        87 + n
    }
}

/// How one byte is written inside a JSON string: quote, backslash and
/// the common control characters get two-character escapes, other
/// control bytes a unicode escape, and everything else stands as is.
pub open spec fn esc_byte(b: u8) -> Seq<u8> {
    if b == 34 {
        seq![92u8, 34u8]
    } else if b == 92 {
        seq![92u8, 92u8]
    } else if b == 10 {
        seq![92u8, 110u8]
    } else if b == 13 {
        seq![92u8, 114u8]
    } else if b == 9 {
        seq![92u8, 116u8]
    } else if b == 8 {
        seq![92u8, 98u8]
    } else if b == 12 {
        seq![92u8, 102u8]
    } else if b < 32 {
        seq![92u8, 117u8, 48u8, 48u8, hex_char(b / 16), hex_char(b % 16)]
    } else {
        seq![b]
    }
}

/// A byte sequence escaped for use inside a JSON string.
pub open spec fn esc(s: Seq<u8>) -> Seq<u8>
    decreases s.len(),
{
    if s.len() == 0 {
        Seq::empty()
    } else {
        esc_byte(s[0]) + esc(s.drop_first())
    }
}

pub proof fn lemma_esc_append(a: Seq<u8>, b: Seq<u8>)
    ensures
        esc(a + b) == esc(a) + esc(b),
    decreases a.len(),
{
    if a.len() == 0 {
        assert(a + b =~= b);
        assert(esc(a) + esc(b) =~= esc(b));
    } else {
        assert((a + b)[0] == a[0]);
        assert((a + b).drop_first() =~= a.drop_first() + b);
        lemma_esc_append(a.drop_first(), b);
        assert(esc(a + b) =~= esc(a) + esc(b));
    }
}

pub proof fn lemma_esc_snoc(s: Seq<u8>, i: int)
    requires
        0 <= i < s.len(),
    ensures
        esc(s.take(i + 1)) == esc(s.take(i)) + esc_byte(s[i]),
{
    lemma_esc_append(s.take(i), seq![s[i]]);
    assert(s.take(i + 1) =~= s.take(i) + seq![s[i]]);
    assert(seq![s[i]].drop_first() =~= Seq::<u8>::empty());
    assert(esc(Seq::<u8>::empty()) =~= Seq::<u8>::empty());
    assert(esc(seq![s[i]]) =~= esc_byte(s[i]));
}

/// Bytes that escaping leaves as they stand.
pub open spec fn plain_bytes(s: Seq<u8>) -> bool {
    forall|i: int| 0 <= i < s.len() ==> 32 <= #[trigger] s[i] && s[i] != 34 && s[i] != 92
}

/// Escaping is the identity on plain bytes.
pub proof fn lemma_esc_plain(s: Seq<u8>)
    requires
        plain_bytes(s),
    ensures
        esc(s) == s,
    decreases s.len(),
{
    if s.len() > 0 {
        assert(32 <= s[0] && s[0] != 34 && s[0] != 92);
        assert(esc_byte(s[0]) =~= seq![s[0]]);
        assert(plain_bytes(s.drop_first())) by {
            assert(forall|i: int|
                0 <= i < s.drop_first().len() ==> #[trigger] s.drop_first()[i] == s[i + 1]);
        }
        lemma_esc_plain(s.drop_first());
        assert(esc(s) =~= s);
    }
}

/// Unescaping inverts escaping: a string body holding the escaped form
/// of `b` followed by a closing quote parses to exactly `b`.
pub proof fn lemma_string_body_escaped(s: Seq<u8>, i: int, b: Seq<u8>)
    requires
        0 <= i,
        i + esc(b).len() + 1 <= s.len(),
        s.subrange(i, i + esc(b).len()) == esc(b),
        s[i + esc(b).len()] == 34,
    ensures
        spec_string_body(s, i) == Some((b, i + esc(b).len() + 1)),
    decreases b.len(),
{
    if b.len() == 0 {
        assert(esc(b).len() == 0);
        assert(s[i] == 34);
    } else {
        let b0 = b[0];
        let e0 = esc_byte(b0);
        let bl = esc(b.drop_first());
        assert(esc(b) == e0 + bl);
        assert(forall|t: int| 0 <= t < esc(b).len() ==> #[trigger] s[i + t] == esc(b)[t]) by {
            assert(forall|t: int|
                0 <= t < esc(b).len() ==> s.subrange(i, i + esc(b).len())[t] == #[trigger] s[i
                    + t]);
        }
        assert(forall|t: int| 0 <= t < e0.len() ==> #[trigger] s[i + t] == e0[t]);
        let i2 = i + e0.len();
        assert(s.subrange(i2, i2 + bl.len()) =~= bl) by {
            assert(forall|t: int|
                0 <= t < bl.len() ==> #[trigger] s.subrange(i2, i2 + bl.len())[t] == s[i2 + t]
                    && esc(b)[e0.len() + t] == bl[t]);
        }
        assert(s[i2 + bl.len()] == 34);
        lemma_string_body_escaped(s, i2, b.drop_first());
        assert(seq![b0] + b.drop_first() =~= b);
        assert(s[i + 0] == esc(b)[0]);
        assert(esc(b)[0] == e0[0]);
        assert(s[i] == e0[0]);
        if 32 <= b0 && b0 != 34 && b0 != 92 {
            assert(e0 =~= seq![b0]);
            assert(s[i] == b0);
        } else if b0 == 34 || b0 == 92 || b0 == 10 || b0 == 13 || b0 == 9 || b0 == 8 || b0
            == 12 {
            assert(s[i] == 92);
            let x = e0[1];
            assert(s[i + 1] == x);
            assert(x != 117);
            assert(esc_map(x) == Some(b0));
        } else {
            // a remaining control byte, written as a unicode escape
            assert(b0 < 32);
            assert(e0 == seq![92u8, 117u8, 48u8, 48u8, hex_char(b0 / 16), hex_char(b0 % 16)]);
            assert(s[i] == 92 && s[i + 1] == 117 && s[i + 2] == 48 && s[i + 3] == 48);
            assert(s[i + 4] == hex_char(b0 / 16) && s[i + 5] == hex_char(b0 % 16));
            assert(hex_val(48) == Some(0u8));
            assert(hex_val(hex_char(b0 / 16)) == Some((b0 / 16) as u8));
            assert(hex_val(hex_char(b0 % 16)) == Some((b0 % 16) as u8));
            assert((b0 / 16) * 16 + (b0 % 16) == b0);
        }
    }
}

/// True when the sequence holds no line-feed byte, so that it fits on
/// one wire line.
pub open spec fn no_nl_bytes(s: Seq<u8>) -> bool {
    forall|i: int| 0 <= i < s.len() ==> s[i] != 10
}

/// Escaping never emits a line feed: the one byte that could break
/// framing is itself escaped.
pub proof fn lemma_esc_no_nl(s: Seq<u8>)
    ensures
        no_nl_bytes(esc(s)),
    decreases s.len(),
{
    if s.len() > 0 {
        lemma_esc_no_nl(s.drop_first());
        assert(no_nl_bytes(esc_byte(s[0]))) by {
            let b = s[0];
            if b < 32 && b != 34 && b != 92 && b != 10 && b != 13 && b != 9 && b != 8 && b != 12 {
                assert(hex_char(b / 16) != 10);
                assert(hex_char(b % 16) != 10);
            }
        }
        assert forall|k: int| 0 <= k < esc(s).len() implies esc(s)[k] != 10 by {
            if k < esc_byte(s[0]).len() {
                assert(esc(s)[k] == esc_byte(s[0])[k]);
            } else {
                assert(esc(s)[k] == esc(s.drop_first())[k - esc_byte(s[0]).len()]);
            }
        }
    }
}

/// Escapes a byte sequence for use inside a JSON string.
pub fn escaped(s: &[u8]) -> (r: Vec<u8>)
    ensures
        r@ == esc(s@),
{
    let n = s.len();
    let mut out: Vec<u8> = Vec::new();
    let mut i: usize = 0;
    proof {
        assert(s@.take(0) =~= Seq::<u8>::empty());
        assert(out@ =~= esc(s@.take(0)));
    }
    loop
        invariant
            i <= n == s@.len(),
            out@ == esc(s@.take(i as int)),
        ensures
            out@ == esc(s@),
        decreases n - i,
    {
        if i >= n {
            proof {
                assert(s@.take(i as int) =~= s@);
            }
            break ;
        }
        let b = s[i];
        let ghost prev = out@;
        if b == 34 {
            out.push(92);
            out.push(34);
        } else if b == 92 {
            out.push(92);
            out.push(92);
        } else if b == 10 {
            out.push(92);
            out.push(110);
        } else if b == 13 {
            out.push(92);
            out.push(114);
        } else if b == 9 {
            out.push(92);
            out.push(116);
        } else if b == 8 {
            out.push(92);
            out.push(98);
        } else if b == 12 {
            out.push(92);
            out.push(102);
        } else if b < 32 {
            out.push(92);
            out.push(117);
            out.push(48);
            out.push(48);
            out.push(hexc(b / 16));
            out.push(hexc(b % 16));
        } else {
            out.push(b);
        }
        proof {
            lemma_esc_snoc(s@, i as int);
            assert(out@ =~= prev + esc_byte(b));
            assert(out@ =~= esc(s@.take(i + 1)));
        }
        i += 1;
    }
    out
}

} // verus!

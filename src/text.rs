//! Characters, integer literals and their decimal rendering.
use vstd::prelude::*;

verus! {

/// The characters of `s` in order.
pub(crate) fn chars_of(s: &str) -> (r: Vec<char>)
    ensures
        r@ == s@,
{
    broadcast use vstd::string::axiom_spec_iter;

    let mut out: Vec<char> = Vec::new();
    for c in it: s.chars()
        invariant
            out@ == it.seq().subrange(0, it.index() as int),
    {
        out.push(c);
    }
    out
}

/// Relies on `String`'s `FromIterator<&char>`: the string of the characters of `v` in order.
#[verifier::external_body]
pub(crate) fn string_of(v: &Vec<char>) -> (r: String)
    ensures
        r@ == v@,
{
    v.iter().collect()
}

/// The value of a digit character in bases up to 16; 99 for any other character.
pub open spec fn digit_val(c: char) -> int {
    if '0' <= c <= '9' {
        c as u32 - '0' as u32
    } else if 'a' <= c <= 'f' {
        c as u32 - 'a' as u32 + 10
    } else if 'A' <= c <= 'F' {
        c as u32 - 'A' as u32 + 10
    } else {
        99
    }
}

pub open spec fn all_digits(s: Seq<char>, radix: int) -> bool {
    forall|k: int| 0 <= k < s.len() ==> digit_val(#[trigger] s[k]) < radix
}

/// The value of a string of digits in base `radix`, most significant first.
pub open spec fn digits_value(s: Seq<char>, radix: int) -> int
    decreases s.len(),
{
    if s.len() == 0 {
        0
    } else {
        digits_value(s.drop_last(), radix) * radix + digit_val(s.last())
    }
}

/// An integer literal in base `radix`: optional `+` (or `-` where `signed`),
/// then one or more digits.
pub open spec fn parse_int(s: Seq<char>, radix: int, signed: bool) -> Option<int> {
    if s.len() == 0 {
        None
    } else if s[0] == '+' || (signed && s[0] == '-') {
        let d = s.drop_first();
        if d.len() > 0 && all_digits(d, radix) {
            Some(
                if s[0] == '-' {
                    -digits_value(d, radix)
                } else {
                    digits_value(d, radix)
                },
            )
        } else {
            None
        }
    } else if all_digits(s, radix) {
        Some(digits_value(s, radix))
    } else {
        None
    }
}

/// Magnitudes above this are not told apart by `parse_clamped`.
pub const CAP: i128 = 0x1_0000_0000_0000_0000;

/// `v`, with every value beyond `CAP` in size taken to one past it.
pub open spec fn clamp(v: int) -> int {
    if v > CAP {
        CAP + 1
    } else if v < -CAP {
        -(CAP + 1)
    } else {
        v
    }
}

proof fn lemma_digits_value_step(s: Seq<char>, radix: int)
    requires
        radix >= 1,
        all_digits(s, radix),
    ensures
        digits_value(s, radix) >= 0,
        s.len() > 0 ==> digits_value(s, radix) >= digits_value(s.drop_last(), radix),
    decreases s.len(),
{
    if s.len() > 0 {
        let p = s.drop_last();
        assert(all_digits(p, radix)) by {
            assert forall|k: int| 0 <= k < p.len() implies digit_val(#[trigger] p[k]) < radix by {
                assert(p[k] == s[k]);
            }
        }
        lemma_digits_value_step(p, radix);
        let v = digits_value(p, radix);
        assert(digit_val(s[s.len() - 1]) >= 0);
        assert(v * radix >= v) by (nonlinear_arith)
            requires
                v >= 0,
                radix >= 1,
        ;
    }
}

fn digit_of(c: char) -> (r: u32)
    ensures
        r == digit_val(c),
{
    if '0' <= c && c <= '9' {
        c as u32 - '0' as u32
    } else if 'a' <= c && c <= 'f' {
        c as u32 - 'a' as u32 + 10
    } else if 'A' <= c && c <= 'F' {
        c as u32 - 'A' as u32 + 10
    } else {
        99
    }
}

/// Reads an integer literal in base 10 or 16; values larger than `CAP` in
/// size come back as one past it, so that any range within `CAP` can be
/// checked on the result.
pub fn parse_clamped(s: &Vec<char>, radix: u32, signed: bool) -> (r: Option<i128>)
    requires
        radix == 10 || radix == 16,
    ensures
        match parse_int(s@, radix as int, signed) {
            Some(v) => r == Some(clamp(v) as i128),
            None => r is None,
        },
{
    let n = s.len();
    if n == 0 {
        return None;
    }
    let mut start: usize = 0;
    let mut neg = false;
    if s[0] == '+' || (signed && s[0] == '-') {
        if n == 1 {
            return None;
        }
        neg = s[0] == '-';
        start = 1;
    }
    let ghost d = s@.subrange(start as int, n as int);
    assert(start == 1 ==> d =~= s@.drop_first());
    assert(start == 0 ==> d =~= s@);
    let mut acc: i128 = 0;
    let mut i: usize = start;
    while i < n
        invariant
            start <= i <= n,
            n == s@.len(),
            n > 0,
            start <= 1,
            start == 0 ==> !(s@[0] == '+' || (signed && s@[0] == '-')),
            start == 1 ==> (s@[0] == '+' || (signed && s@[0] == '-')) && n > 1,
            neg == (start == 1 && s@[0] == '-'),
            d == s@.subrange(start as int, n as int),
            radix == 10 || radix == 16,
            all_digits(s@.subrange(start as int, i as int), radix as int),
            acc == (if digits_value(s@.subrange(start as int, i as int), radix as int) > CAP {
                CAP + 1
            } else {
                digits_value(s@.subrange(start as int, i as int), radix as int)
            }),
        decreases n - i,
    {
        let dg = digit_of(s[i]);
        let ghost p = s@.subrange(start as int, i as int);
        let ghost q = s@.subrange(start as int, i as int + 1);
        if dg >= radix {
            assert(!all_digits(d, radix as int)) by {
                assert(d[i - start] == s@[i as int]);
            }
            return None;
        }
        assert(q.drop_last() =~= p);
        assert(q.last() == s@[i as int]);
        assert(all_digits(q, radix as int)) by {
            assert forall|k: int| 0 <= k < q.len() implies digit_val(#[trigger] q[k]) < radix by {
                if k < p.len() {
                    assert(q[k] == p[k]);
                }
            }
        }
        proof { lemma_digits_value_step(q, radix as int); }
        if acc > CAP {
            acc = CAP + 1;
        } else {
            let t: i128 = acc * (radix as i128) + (dg as i128);
            acc = if t > CAP {
                CAP + 1
            } else {
                t
            };
        }
        i += 1;
    }
    assert(s@.subrange(start as int, n as int) == d);
    proof { lemma_digits_value_step(d, radix as int); }
    if neg {
        Some(-acc)
    } else {
        Some(acc)
    }
}

/// The character of a decimal digit.
pub open spec fn digit_char(d: int) -> char {
    if d == 0 { '0' }
    else if d == 1 { '1' }
    else if d == 2 { '2' }
    else if d == 3 { '3' }
    else if d == 4 { '4' }
    else if d == 5 { '5' }
    else if d == 6 { '6' }
    else if d == 7 { '7' }
    else if d == 8 { '8' }
    else { '9' }
}

/// The decimal digits of `n`, without leading zeros.
pub open spec fn dec_digits(n: nat) -> Seq<char>
    decreases n,
{
    if n < 10 {
        seq![digit_char(n as int)]
    } else {
        dec_digits(n / 10).push(digit_char((n % 10) as int))
    }
}

/// The decimal text of `v`, with a `-` before a negative value.
pub open spec fn dec_text(v: int) -> Seq<char> {
    if v < 0 {
        seq!['-'] + dec_digits((-v) as nat)
    } else {
        dec_digits(v as nat)
    }
}

fn digit_char_exec(d: u64) -> (r: char)
    requires
        d < 10,
    ensures
        r == digit_char(d as int),
{
    if d == 0 { '0' }
    else if d == 1 { '1' }
    else if d == 2 { '2' }
    else if d == 3 { '3' }
    else if d == 4 { '4' }
    else if d == 5 { '5' }
    else if d == 6 { '6' }
    else if d == 7 { '7' }
    else if d == 8 { '8' }
    else { '9' }
}

fn push_digits(n: u64, out: &mut Vec<char>)
    ensures
        final(out)@ == old(out)@ + dec_digits(n as nat),
    decreases n,
{
    if n >= 10 {
        push_digits(n / 10, out);
    }
    out.push(digit_char_exec(n % 10));
    assert(final(out)@ =~= old(out)@ + dec_digits(n as nat));
}

/// Appends the decimal text of `n` to `out`.
pub fn push_count(n: usize, out: &mut Vec<char>)
    ensures
        final(out)@ == old(out)@ + dec_text(n as int),
{
    push_digits(n as u64, out);
}

/// Appends the decimal text of `v` to `out`.
pub fn push_decimal(v: i64, out: &mut Vec<char>)
    requires
        v > i64::MIN,
    ensures
        final(out)@ == old(out)@ + dec_text(v as int),
{
    if v < 0 {
        out.push('-');
        push_digits((-v) as u64, out);
        assert(final(out)@ =~= old(out)@ + dec_text(v as int));
    } else {
        push_digits(v as u64, out);
    }
}

/// The decimal digits of `n` are digits, and they read as `n`.
pub proof fn lemma_dec_digits(n: nat)
    ensures
        dec_digits(n).len() > 0,
        all_digits(dec_digits(n), 10),
        digits_value(dec_digits(n), 10) == n,
    decreases n,
{
    let d = dec_digits(n);
    if n < 10 {
        assert(digit_val(digit_char(n as int)) == n);
        assert(d.drop_last() =~= seq![]);
        assert(digits_value(d, 10) == digits_value(d.drop_last(), 10) * 10 + digit_val(d.last()));
    } else {
        lemma_dec_digits(n / 10);
        let p = dec_digits(n / 10);
        assert(digit_val(digit_char((n % 10) as int)) == n % 10);
        assert(d.drop_last() =~= p);
        assert(d.last() == digit_char((n % 10) as int));
        assert(digits_value(d, 10) == digits_value(p, 10) * 10 + digit_val(d.last()));
        assert((n / 10) * 10 + n % 10 == n);
        assert forall|k: int| 0 <= k < d.len() implies digit_val(#[trigger] d[k]) < 10 by {
            if k < p.len() {
                assert(d[k] == p[k]);
            }
        }
    }
}

/// The decimal text of an integer reads back as that integer; without its
/// sign, a non-negative one reads back as well where no sign is allowed.
pub proof fn lemma_parse_dec_text(v: int, signed: bool)
    requires
        signed || v >= 0,
    ensures
        parse_int(dec_text(v), 10, signed) == Some(v),
{
    if v < 0 {
        let n = (-v) as nat;
        lemma_dec_digits(n);
        let t = dec_text(v);
        assert(t.drop_first() =~= dec_digits(n));
    } else {
        lemma_dec_digits(v as nat);
        let d = dec_digits(v as nat);
        assert(digit_val(d[0]) < 10);
    }
}

/// A character with an ASCII capital taken to its lower-case letter.
pub open spec fn lower_char(c: char) -> char {
    if 'A' <= c <= 'Z' {
        ((c as u8) + 32) as u8 as char
    } else {
        c
    }
}

/// The characters of `s`, ASCII capitals taken to lower case.
pub open spec fn ascii_lower(s: Seq<char>) -> Seq<char> {
    s.map_values(|c: char| lower_char(c))
}

/// Lower-cases the ASCII capitals of `v`.
pub fn lower_chars(v: &Vec<char>) -> (r: Vec<char>)
    ensures
        r@ == ascii_lower(v@),
{
    let mut out: Vec<char> = Vec::new();
    let mut i: usize = 0;
    while i < v.len()
        invariant
            i <= v@.len(),
            out@ == ascii_lower(v@.subrange(0, i as int)),
        decreases v.len() - i,
    {
        let c = v[i];
        let d = if 'A' <= c && c <= 'Z' {
            ((c as u8) + 32) as char
        } else {
            c
        };
        out.push(d);
        assert(out@ =~= ascii_lower(v@.subrange(0, i as int + 1)));
        i += 1;
    }
    assert(v@.subrange(0, i as int) =~= v@);
    out
}

} // verus!

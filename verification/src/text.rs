//! Text-level helpers: decimal formatting with zero padding, quote escaping,
//! and scanning of decimal digits with `_` separators. These are the
//! character-by-character building blocks of literal parsing and emission.
use vstd::prelude::*;

verus! {

/// Relies on String::push: appends exactly the one character to the string.
#[verifier::external_body]
pub fn push_char(s: &mut String, c: char)
    ensures
        final(s)@ == old(s)@.push(c),
{
    s.push(c);
}

/// Relies on char::from_u32: on a Unicode scalar value it returns the
/// character with exactly that value, so the unwrap cannot panic.
#[verifier::external_body]
pub fn char_of_u32(u: u32) -> (c: char)
    requires
        is_scalar(u as int),
    ensures
        c == (u as char),
        c as u32 == u,
{
    char::from_u32(u).unwrap()
}

/// A Unicode scalar value: any code point outside the surrogate gap.
pub open spec fn is_scalar(u: int) -> bool {
    (0 <= u < 0xD800) || (0xE000 <= u <= 0x10FFFF)
}

/// The decimal digit character for `d` in `0 ..= 9`.
pub open spec fn digit_char(d: int) -> char {
    if d == 0 {
        '0'
    } else if d == 1 {
        '1'
    } else if d == 2 {
        '2'
    } else if d == 3 {
        '3'
    } else if d == 4 {
        '4'
    } else if d == 5 {
        '5'
    } else if d == 6 {
        '6'
    } else if d == 7 {
        '7'
    } else if d == 8 {
        '8'
    } else {
        '9'
    }
}

/// The decimal digits of `n`, most significant first, with no leading zeros
/// (the single digit `0` for zero).
pub open spec fn dec_digits(n: nat) -> Seq<char>
    decreases n,
{
    if n < 10 {
        seq![digit_char(n as int)]
    } else {
        dec_digits(n / 10).push(digit_char((n % 10) as int))
    }
}

/// The decimal digits of `n`, left-padded with `'0'` up to `width`
/// characters. With `width` 0 this is plain decimal formatting.
pub open spec fn pad_dec(n: nat, width: nat) -> Seq<char> {
    let ds = dec_digits(n);
    if ds.len() < width {
        Seq::new((width - ds.len()) as nat, |i: int| '0') + ds
    } else {
        ds
    }
}

/// Appends one decimal digit character.
fn push_digit(s: &mut String, d: u64)
    requires
        d < 10,
    ensures
        final(s)@ == old(s)@.push(digit_char(d as int)),
{
    if d == 0 {
        push_char(s, '0');
    } else if d == 1 {
        push_char(s, '1');
    } else if d == 2 {
        push_char(s, '2');
    } else if d == 3 {
        push_char(s, '3');
    } else if d == 4 {
        push_char(s, '4');
    } else if d == 5 {
        push_char(s, '5');
    } else if d == 6 {
        push_char(s, '6');
    } else if d == 7 {
        push_char(s, '7');
    } else if d == 8 {
        push_char(s, '8');
    } else {
        push_char(s, '9');
    }
}

/// The digit characters of the values in `v`, read back to front.
spec fn rev_chars(v: Seq<u64>) -> Seq<char> {
    Seq::new(v.len(), |i: int| digit_char(v[v.len() - 1 - i] as int))
}

/// Appends the decimal form of `n`, zero-padded to `width`.
pub fn push_padded(s: &mut String, n: u64, width: usize)
    ensures
        final(s)@ == old(s)@ + pad_dec(n as nat, width as nat),
{
    let mut rev: Vec<u64> = Vec::new();
    let mut cur: u64 = n;
    proof {
        assert(rev_chars(rev@) =~= Seq::<char>::empty());
        assert(dec_digits(n as nat) =~= dec_digits(cur as nat) + rev_chars(rev@));
    }
    while cur >= 10
        invariant
            dec_digits(n as nat) == dec_digits(cur as nat) + rev_chars(rev@),
            forall|k: int| 0 <= k < rev@.len() ==> rev@[k] < 10,
        decreases cur,
    {
        let d = cur % 10;
        let ghost prev = rev@;
        rev.push(d);
        cur = cur / 10;
        proof {
            assert(rev_chars(prev.push(d)) =~= seq![digit_char(d as int)] + rev_chars(prev));
            assert(dec_digits(n as nat) =~= dec_digits(cur as nat) + rev_chars(rev@));
        }
    }
    let ghost prev = rev@;
    rev.push(cur);
    proof {
        assert(rev_chars(prev.push(cur)) =~= seq![digit_char(cur as int)] + rev_chars(prev));
        assert(dec_digits(n as nat) =~= rev_chars(rev@));
    }
    let dlen = rev.len();
    let ghost base = s@;
    if width > dlen {
        let mut z: usize = width - dlen;
        proof {
            assert(s@ =~= base + Seq::new((width - dlen - z) as nat, |i: int| '0'));
        }
        while z > 0
            invariant
                z <= width - dlen <= width,
                dlen == rev@.len(),
                s@ == base + Seq::new((width - dlen - z) as nat, |i: int| '0'),
            decreases z,
        {
            push_char(s, '0');
            z = z - 1;
            proof {
                assert(s@ =~= base + Seq::new((width - dlen - z) as nat, |i: int| '0'));
            }
        }
    }
    let ghost mid = s@;
    let mut j: usize = dlen;
    proof {
        assert(s@ =~= mid + rev_chars(rev@).subrange(0, dlen - j));
    }
    while j > 0
        invariant
            j <= dlen,
            dlen == rev@.len(),
            forall|k: int| 0 <= k < rev@.len() ==> rev@[k] < 10,
            s@ == mid + rev_chars(rev@).subrange(0, dlen - j),
        decreases j,
    {
        let jj = j - 1;
        push_digit(s, rev[jj]);
        j = jj;
        proof {
            assert(rev_chars(rev@)[dlen - 1 - jj] == digit_char(rev@[jj as int] as int));
            assert(s@ =~= mid + rev_chars(rev@).subrange(0, dlen - j));
        }
    }
    proof {
        assert(rev_chars(rev@).subrange(0, dlen as int) =~= rev_chars(rev@));
        assert(s@ =~= base + pad_dec(n as nat, width as nat));
    }
}

/// One character as it appears inside a quoted literal with quote `q`: the
/// quote itself and a backslash are escaped with a backslash, everything else
/// stands as it is.
pub open spec fn esc_char(c: char, q: char) -> Seq<char> {
    if c == q || c == '\\' {
        seq!['\\', c]
    } else {
        seq![c]
    }
}

/// A text as it appears inside a quoted literal with quote `q`.
pub open spec fn escape_text(s: Seq<char>, q: char) -> Seq<char>
    decreases s,
{
    if s.len() == 0 {
        Seq::empty()
    } else {
        esc_char(s[0], q) + escape_text(s.subrange(1, s.len() as int), q)
    }
}

/// Appends one character, escaped for a literal quoted with `q`.
pub fn push_esc_char(s: &mut String, c: char, q: char)
    ensures
        final(s)@ == old(s)@ + esc_char(c, q),
{
    if c == q || c == '\\' {
        push_char(s, '\\');
    }
    push_char(s, c);
    proof {
        assert(final(s)@ =~= old(s)@ + esc_char(c, q));
    }
}

/// Appends a whole text, escaped for a literal quoted with `q`.
pub fn push_escaped(s: &mut String, t: &str, q: char)
    ensures
        final(s)@ == old(s)@ + escape_text(t@, q),
{
    let ghost base = s@;
    let n = t.unicode_len();
    let mut i: usize = 0;
    proof {
        assert(t@.subrange(0, n as int) =~= t@);
    }
    while i < n
        invariant
            i <= n,
            n == t@.len(),
            base + escape_text(t@, q) == s@ + escape_text(t@.subrange(i as int, n as int), q),
        decreases n - i,
    {
        let c = t.get_char(i);
        push_esc_char(s, c, q);
        proof {
            let suf = t@.subrange(i as int, n as int);
            assert(suf[0] == t@[i as int]);
            assert(suf.subrange(1, suf.len() as int) =~= t@.subrange(i as int + 1, n as int));
        }
        i = i + 1;
    }
    proof {
        assert(t@.subrange(t@.len() as int, t@.len() as int) =~= Seq::<char>::empty());
        assert(base + escape_text(t@, q) =~= s@);
    }
}

/// A decimal digit character.
pub open spec fn is_digit(c: char) -> bool {
    48 <= c as u32 <= 57
}

/// The value of a decimal digit character.
pub open spec fn digit_val(c: char) -> int {
    c as u32 - 48
}

/// An ASCII letter.
pub open spec fn is_alpha(c: char) -> bool {
    (65 <= c as u32 <= 90) || (97 <= c as u32 <= 122)
}

/// Scans digits and `_` separators from position `i`, accumulating the value
/// most significant digit first. Returns the value, the number of digit
/// characters seen, and the position of the first character past the run.
pub open spec fn scan_int(s: Seq<char>, i: int, acc: nat, dcount: nat) -> (nat, nat, int)
    decreases s.len() - i,
{
    if i < 0 || i >= s.len() {
        (acc, dcount, i)
    } else if is_digit(s[i]) {
        scan_int(s, i + 1, acc * 10 + digit_val(s[i]) as nat, dcount + 1)
    } else if s[i] == '_' {
        scan_int(s, i + 1, acc, dcount)
    } else {
        (acc, dcount, i)
    }
}

/// The scanned value never falls below the accumulator it started from.
pub proof fn lemma_scan_monotone(s: Seq<char>, i: int, acc: nat, dcount: nat)
    ensures
        scan_int(s, i, acc, dcount).0 >= acc,
    decreases s.len() - i,
{
    if 0 <= i < s.len() {
        if is_digit(s[i]) {
            lemma_scan_monotone(s, i + 1, acc * 10 + digit_val(s[i]) as nat, dcount + 1);
        } else if s[i] == '_' {
            lemma_scan_monotone(s, i + 1, acc, dcount);
        }
    }
}

} // verus!

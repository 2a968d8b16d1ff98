//! The range model: a parsed bound value, the combined range with its
//! inclusivity, and the ascending sequence of values it stands for.
//!
//! A bound literal is an unsigned decimal integer (with optional `_` digit
//! separators and an optional trailing suffix beginning with a letter), a
//! single-quoted character, or a single-quoted byte character. An integer
//! bound whose text begins with `0` fixes a zero-padding width for every
//! value generated in that invocation, taken from the digit count of the
//! `begin` bound.
use vstd::prelude::*;
use crate::text::{is_alpha, is_digit, is_scalar, scan_int};

verus! {

/// The domain of a range: plain integers, byte characters, or characters.
#[derive(Clone, Copy, Debug, PartialEq, Eq, Structural)]
pub enum Kind {
    Int,
    Byte,
    Char,
}

/// One parsed bound: its numeric value (the code point, for character
/// kinds), its kind, the suffix and padding width of its literal text, and
/// the location of the literal it came from.
#[derive(Debug)]
pub struct Value {
    pub val: u64,
    pub kind: Kind,
    pub suffix: String,
    pub width: usize,
    pub loc: u64,
}

/// The mathematical model of a bound.
#[verifier::ext_equal]
pub struct ValueV {
    pub val: u64,
    pub kind: Kind,
    pub suffix: Seq<char>,
    pub width: nat,
    pub loc: u64,
}

impl View for Value {
    type V = ValueV;

    open spec fn view(&self) -> ValueV {
        ValueV {
            val: self.val,
            kind: self.kind,
            suffix: self.suffix@,
            width: self.width as nat,
            loc: self.loc,
        }
    }
}

/// A validated range: both bounds, inclusivity, the shared kind, the merged
/// suffix and the padding width.
#[derive(Debug)]
pub struct Range {
    pub begin: u64,
    pub end: u64,
    pub inclusive: bool,
    pub kind: Kind,
    pub suffix: String,
    pub width: usize,
}

/// The mathematical model of a range.
#[verifier::ext_equal]
pub struct RangeV {
    pub begin: u64,
    pub end: u64,
    pub inclusive: bool,
    pub kind: Kind,
    pub suffix: Seq<char>,
    pub width: nat,
}

impl View for Range {
    type V = RangeV;

    open spec fn view(&self) -> RangeV {
        RangeV {
            begin: self.begin,
            end: self.end,
            inclusive: self.inclusive,
            kind: self.kind,
            suffix: self.suffix@,
            width: self.width as nat,
        }
    }
}

/// A well-formed range holds values of its kind's domain: code points of
/// characters for `Char`, ASCII values for `Byte`. The parser only ever
/// builds well-formed ranges.
pub open spec fn wf_range(r: RangeV) -> bool {
    match r.kind {
        Kind::Int => true,
        Kind::Byte => r.begin <= 0x7F && r.end <= 0x7F,
        Kind::Char => is_scalar(r.begin as int) && is_scalar(r.end as int),
    }
}

/// The exclusive upper bound of the value sequence.
pub open spec fn upper(r: RangeV) -> int {
    if r.inclusive {
        r.end + 1
    } else {
        r.end as int
    }
}

/// How many code points lie between the bounds, the surrogate gap included.
pub open spec fn range_len(r: RangeV) -> nat {
    if upper(r) > r.begin {
        (upper(r) - r.begin) as nat
    } else {
        0
    }
}

/// A value that the sequence leaves out: in the character domain, a code
/// point that is no Unicode scalar value.
pub open spec fn skip_val(v: int, k: Kind) -> bool {
    k is Char && !is_scalar(v)
}

/// The ascending values in `[lo, hi)`, skipping what `skip_val` leaves out.
pub open spec fn range_values_from(lo: int, hi: int, k: Kind) -> Seq<u64>
    decreases hi - lo,
{
    if lo >= hi {
        Seq::empty()
    } else if skip_val(lo, k) {
        range_values_from(lo + 1, hi, k)
    } else {
        seq![lo as u64] + range_values_from(lo + 1, hi, k)
    }
}

/// The ascending sequence of values a range stands for.
pub open spec fn range_values(r: RangeV) -> Seq<u64> {
    range_values_from(r.begin as int, upper(r), r.kind)
}

/// Extending the interval by one value appends it, unless it is skipped.
pub proof fn lemma_rvf_snoc(lo: int, hi: int, k: Kind)
    requires
        lo <= hi,
    ensures
        range_values_from(lo, hi + 1, k) == range_values_from(lo, hi, k) + (if skip_val(hi, k) {
            Seq::<u64>::empty()
        } else {
            seq![hi as u64]
        }),
    decreases hi - lo,
{
    let tail = if skip_val(hi, k) {
        Seq::<u64>::empty()
    } else {
        seq![hi as u64]
    };
    if lo == hi {
        assert(range_values_from(lo, hi, k) =~= Seq::<u64>::empty());
        assert(range_values_from(hi + 1, hi + 1, k) =~= Seq::<u64>::empty());
        assert(range_values_from(lo, hi + 1, k) =~= tail);
        assert(range_values_from(lo, hi, k) + tail =~= tail);
    } else {
        lemma_rvf_snoc(lo + 1, hi, k);
        assert(range_values_from(lo, hi + 1, k) =~= range_values_from(lo, hi, k) + tail);
    }
}

/// Every produced value lies in the interval and is not skipped.
pub proof fn lemma_rvf_bounds(lo: int, hi: int, k: Kind)
    requires
        0 <= lo,
        hi <= u64::MAX + 1,
    ensures
        forall|j: int|
            0 <= j < range_values_from(lo, hi, k).len() ==> {
                let v = #[trigger] range_values_from(lo, hi, k)[j];
                lo <= v < hi && !skip_val(v as int, k)
            },
    decreases hi - lo,
{
    if lo >= hi {
    } else {
        lemma_rvf_bounds(lo + 1, hi, k);
        let s = range_values_from(lo, hi, k);
        let s1 = range_values_from(lo + 1, hi, k);
        assert forall|j: int| 0 <= j < s.len() implies {
            let v = #[trigger] s[j];
            lo <= v < hi && !skip_val(v as int, k)
        } by {
            if skip_val(lo, k) {
                assert(s[j] == s1[j]);
            } else {
                if j > 0 {
                    assert(s[j] == s1[j - 1]);
                }
            }
        }
    }
}

/// Where nothing is skipped, the value sequence is dense: value `j` is
/// `lo + j`.
pub proof fn lemma_rvf_dense(lo: int, hi: int, k: Kind)
    requires
        0 <= lo,
        hi <= u64::MAX + 1,
        forall|v: int| lo <= v < hi ==> !skip_val(v, k),
    ensures
        lo <= hi ==> range_values_from(lo, hi, k).len() == hi - lo,
        lo > hi ==> range_values_from(lo, hi, k).len() == 0,
        forall|j: int|
            0 <= j < range_values_from(lo, hi, k).len() ==> #[trigger] range_values_from(
                lo,
                hi,
                k,
            )[j] == lo + j,
    decreases hi - lo,
{
    if lo >= hi {
    } else {
        lemma_rvf_dense(lo + 1, hi, k);
        let s = range_values_from(lo, hi, k);
        let s1 = range_values_from(lo + 1, hi, k);
        assert forall|j: int| 0 <= j < s.len() implies #[trigger] s[j] == lo + j by {
            if j > 0 {
                assert(s[j] == s1[j - 1]);
            }
        }
    }
}

impl Range {
    /// The ordered values of the range, ascending: `begin..end` or
    /// `begin..=end`, the surrogate gap skipped in the character domain. A
    /// reversed range yields no values.
    pub fn values(&self) -> (v: Vec<u64>)
        requires
            wf_range(self@),
        ensures
            v@ == range_values(self@),
    {
        let mut out: Vec<u64> = Vec::new();
        if self.inclusive && self.begin > self.end {
            assert(out@ =~= range_values(self@));
            return out;
        }
        if !self.inclusive && self.begin >= self.end {
            assert(out@ =~= range_values(self@));
            return out;
        }
        let mut cur: u64 = self.begin;
        while cur < self.end
            invariant
                wf_range(self@),
                self.begin <= cur <= self.end,
                self.inclusive ==> self.begin <= self.end,
                out@ == range_values_from(self.begin as int, cur as int, self.kind),
            decreases self.end - cur,
        {
            proof {
                lemma_rvf_snoc(self.begin as int, cur as int, self.kind);
            }
            if !(matches!(self.kind, Kind::Char) && 0xD800 <= cur && cur < 0xE000) {
                let ghost prev = out@;
                out.push(cur);
                proof {
                    assert(!skip_val(cur as int, self.kind));
                    assert(out@ =~= prev + seq![cur]);
                }
            } else {
                proof {
                    assert(skip_val(cur as int, self.kind));
                    assert(out@ =~= out@ + Seq::<u64>::empty());
                }
            }
            cur = cur + 1;
        }
        if self.inclusive {
            proof {
                lemma_rvf_snoc(self.begin as int, cur as int, self.kind);
            }
            if !(matches!(self.kind, Kind::Char) && 0xD800 <= cur && cur < 0xE000) {
                let ghost prev = out@;
                out.push(cur);
                proof {
                    assert(!skip_val(cur as int, self.kind));
                    assert(out@ =~= prev + seq![cur]);
                }
            } else {
                proof {
                    assert(skip_val(cur as int, self.kind));
                    assert(out@ =~= out@ + Seq::<u64>::empty());
                }
            }
        }
        out
    }
}

/// What a bound literal's text denotes, if anything: the accepted forms are
/// a decimal integer with optional `_` separators and an optional suffix
/// whose first character is a letter; a single-quoted character; and a
/// single-quoted byte character restricted to ASCII. The padding width is
/// the digit count when the text has a leading zero, otherwise zero.
pub open spec fn spec_parse_value(text: Seq<char>, loc: u64) -> Option<ValueV> {
    if text.len() == 3 && text[0] == '\'' && text[2] == '\'' {
        Some(
            ValueV {
                val: text[1] as u32 as u64,
                kind: Kind::Char,
                suffix: Seq::empty(),
                width: 0,
                loc,
            },
        )
    } else if text.len() == 4 && text[0] == 'b' && text[1] == '\'' && text[3] == '\'' && text[2]
        as u32 <= 0x7F {
        Some(
            ValueV {
                val: text[2] as u32 as u64,
                kind: Kind::Byte,
                suffix: Seq::empty(),
                width: 0,
                loc,
            },
        )
    } else if text.len() >= 1 && is_digit(text[0]) {
        let r = scan_int(text, 0, 0, 0);
        let sfx = text.subrange(r.2, text.len() as int);
        if r.0 <= u64::MAX && (sfx.len() == 0 || is_alpha(sfx[0])) {
            Some(
                ValueV {
                    val: r.0 as u64,
                    kind: Kind::Int,
                    suffix: sfx,
                    width: if text[0] == '0' {
                        r.1
                    } else {
                        0nat
                    },
                    loc,
                },
            )
        } else {
            None
        }
    } else {
        None
    }
}

/// True when the character continues a digit run.
fn is_scan_char_at(text: &str, i: usize) -> (b: bool)
    requires
        i < text@.len(),
    ensures
        b == (is_digit(text@[i as int]) || text@[i as int] == '_'),
{
    let c = text.get_char(i);
    let u = c as u32;
    (48 <= u && u <= 57) || c == '_'
}

/// Parses a bound literal's text, as `spec_parse_value` describes.
pub fn parse_value(text: &str, loc: u64) -> (r: Option<Value>)
    ensures
        match spec_parse_value(text@, loc) {
            Some(v) => r matches Some(pv) && pv@ == v,
            None => r is None,
        },
{
    let n = text.unicode_len();
    if n == 3 {
        if text.get_char(0) == '\'' && text.get_char(2) == '\'' {
            let c = text.get_char(1);
            return Some(
                Value { val: (c as u32) as u64, kind: Kind::Char, suffix: String::new(), width: 0, loc },
            );
        }
    }
    if n == 4 {
        if text.get_char(0) == 'b' && text.get_char(1) == '\'' && text.get_char(3) == '\'' {
            let c = text.get_char(2);
            if c as u32 <= 0x7F {
                return Some(
                    Value { val: (c as u32) as u64, kind: Kind::Byte, suffix: String::new(), width: 0, loc },
                );
            }
        }
    }
    if n == 0 {
        return None;
    }
    let c0 = text.get_char(0);
    let u0 = c0 as u32;
    if !(48 <= u0 && u0 <= 57) {
        return None;
    }
    let mut i: usize = 0;
    let mut acc: u64 = 0;
    let mut dc: usize = 0;
    while i < n && is_scan_char_at(text, i)
        invariant
            0 <= i <= n,
            n == text@.len(),
            dc <= i,
            scan_int(text@, 0, 0, 0) == scan_int(text@, i as int, acc as nat, dc as nat),
        decreases n - i,
    {
        let c = text.get_char(i);
        let u = c as u32;
        if 48 <= u && u <= 57 {
            let d = (u - 48) as u64;
            if acc > (u64::MAX - d) / 10 {
                proof {
                    assert((acc * 10 + d) as nat > u64::MAX as nat) by (nonlinear_arith)
                        requires
                            acc > (u64::MAX - d) / 10,
                            d < 10,
                    ;
                    crate::text::lemma_scan_monotone(
                        text@,
                        i as int + 1,
                        acc as nat * 10 + crate::text::digit_val(text@[i as int]) as nat,
                        dc as nat + 1,
                    );
                }
                return None;
            }
            proof {
                assert(acc * 10 + d <= u64::MAX as int) by (nonlinear_arith)
                    requires
                        acc <= (u64::MAX - d) / 10,
                        d < 10,
                ;
            }
            acc = acc * 10 + d;
            dc = dc + 1;
        }
        i = i + 1;
    }
    proof {
        assert(scan_int(text@, i as int, acc as nat, dc as nat) == (acc as nat, dc as nat, i as int));
    }
    let sfx: String;
    if i < n {
        let cs = text.get_char(i);
        let us = cs as u32;
        if !((65 <= us && us <= 90) || (97 <= us && us <= 122)) {
            return None;
        }
        sfx = String::from_str(text.substring_char(i, n));
    } else {
        sfx = String::new();
        proof {
            assert(text@.subrange(i as int, n as int) =~= Seq::<char>::empty());
        }
    }
    proof {
        assert(sfx@ =~= text@.subrange(i as int, n as int));
    }
    let width: usize = if text.get_char(0) == '0' {
        dc
    } else {
        0
    };
    Some(Value { val: acc, kind: Kind::Int, suffix: sfx, width, loc })
}

} // verus!

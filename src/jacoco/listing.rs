use vstd::prelude::*;

use super::{count_true, ExecutionData, SessionInfo};
use crate::go::reader::string_of;
use crate::go::writer::{decimal, digit_char, digit_char_of, push_decimal, push_str};

verus! {

/// The lower-case hexadecimal digit for `d` (0 to 15).
pub open spec fn hex_digit(d: nat) -> char {
    if d < 10 {
        digit_char(d)
    } else if d == 10 {
        'a'
    } else if d == 11 {
        'b'
    } else if d == 12 {
        'c'
    } else if d == 13 {
        'd'
    } else if d == 14 {
        'e'
    } else {
        'f'
    }
}

/// The low `n` hexadecimal digits of `v`, most significant first.
pub open spec fn hex_digits(v: nat, n: nat) -> Seq<char>
    decreases n,
{
    if n == 0 {
        seq![]
    } else {
        hex_digits(v / 16, (n - 1) as nat).push(hex_digit(v % 16))
    }
}

/// `id` as sixteen hexadecimal digits of its 64-bit two's complement.
pub open spec fn hex16(id: i64) -> Seq<char> {
    hex_digits(
        if id < 0 {
            (id + 0x1_0000_0000_0000_0000) as nat
        } else {
            id as nat
        },
        16,
    )
}

/// `s` right-aligned in a field of three characters.
pub open spec fn pad3(s: Seq<char>) -> Seq<char> {
    if s.len() >= 3 {
        s
    } else {
        Seq::new((3 - s.len()) as nat, |i: int| ' ') + s
    }
}

/// The lower-case hexadecimal digit for `d`.
fn hex_digit_of(d: u64) -> (r: char)
    requires
        d < 16,
    ensures
        r == hex_digit(d as nat),
{
    if d < 10 {
        digit_char_of(d)
    } else if d == 10 {
        'a'
    } else if d == 11 {
        'b'
    } else if d == 12 {
        'c'
    } else if d == 13 {
        'd'
    } else if d == 14 {
        'e'
    } else {
        'f'
    }
}

/// Appends the low `n` hexadecimal digits of `v`.
fn push_hex_digits(out: &mut Vec<char>, v: u64, n: u32)
    ensures
        final(out)@ == old(out)@ + hex_digits(v as nat, n as nat),
    decreases n,
{
    if n > 0 {
        push_hex_digits(out, v / 16, n - 1);
        out.push(hex_digit_of(v % 16));
        assert(out@ =~= old(out)@ + hex_digits(v as nat, n as nat));
    } else {
        assert(out@ =~= old(out)@ + hex_digits(v as nat, n as nat));
    }
}

/// Appends `n` in decimal, right-aligned in three characters.
fn push_padded3(out: &mut Vec<char>, n: u64)
    ensures
        final(out)@ == old(out)@ + pad3(decimal(n as nat)),
{
    let mut digits: Vec<char> = Vec::new();
    push_decimal(&mut digits, n);
    assert(digits@ =~= decimal(n as nat));
    let ghost start = out@;
    let mut k = digits.len();
    while k < 3
        invariant
            digits@ == decimal(n as nat),
            digits@.len() <= k <= 3 || (k == digits@.len() && k >= 3),
            out@ == start + Seq::new((k - digits@.len()) as nat, |i: int| ' '),
        decreases 3 - k,
    {
        out.push(' ');
        k += 1;
        assert(out@ =~= start + Seq::new((k - digits@.len()) as nat, |i: int| ' '));
    }
    let ghost padded = out@;
    let mut i: usize = 0;
    while i < digits.len()
        invariant
            i <= digits@.len(),
            out@ == padded + digits@.subrange(0, i as int),
        decreases digits@.len() - i,
    {
        out.push(digits[i]);
        i += 1;
        assert(out@ =~= padded + digits@.subrange(0, i as int));
    }
    assert(digits@.subrange(0, i as int) =~= digits@);
    if digits.len() >= 3 {
        assert(padded =~= start);
    }
    assert(out@ =~= start + pad3(decimal(n as nat)));
}

/// The first line of a listing of execution data.
pub fn listing_header() -> (r: String)
    ensures
        r@ == "CLASS ID         HITS/PROBES   CLASS NAME"@,
{
    let mut out: Vec<char> = Vec::new();
    push_str(&mut out, "CLASS ID         HITS/PROBES   CLASS NAME");
    assert(out@ =~= "CLASS ID         HITS/PROBES   CLASS NAME"@);
    string_of(&out, 0, out.len())
}

impl SessionInfo {
    /// The listing line of this session, given its start and dump times as
    /// they are to be shown: `Session "<id>": <start> - <dump>`.
    pub fn listing_line(&self, start: &str, dump: &str) -> (r: String)
        ensures
            r@ == "Session \""@ + self@.id + "\": "@ + start@ + " - "@ + dump@,
    {
        let mut out: Vec<char> = Vec::new();
        push_str(&mut out, "Session \"");
        push_str(&mut out, self.id.as_str());
        push_str(&mut out, "\": ");
        push_str(&mut out, start);
        push_str(&mut out, " - ");
        push_str(&mut out, dump);
        assert(out@ =~= "Session \""@ + self@.id + "\": "@ + start@ + " - "@ + dump@);
        string_of(&out, 0, out.len())
    }
}

impl ExecutionData {
    /// The listing line of this record: its id in sixteen hexadecimal
    /// digits, the hit and total probe counts in fields of three, and its
    /// name.
    pub fn listing_line(&self) -> (r: String)
        ensures
            r@ == hex16(self@.id) + "  "@ + pad3(decimal(count_true(self@.probes))) + " of "@
                + pad3(decimal(self@.probes.len())) + "   "@ + self@.name,
    {
        let mut out: Vec<char> = Vec::new();
        let bits: u64 = if self.id < 0 {
            ((self.id + 9223372036854775807 + 1) as u64) + 9223372036854775808u64
        } else {
            self.id as u64
        };
        push_hex_digits(&mut out, bits, 16);
        push_str(&mut out, "  ");
        push_padded3(&mut out, self.covered_lines() as u64);
        push_str(&mut out, " of ");
        push_padded3(&mut out, self.probes.len() as u64);
        push_str(&mut out, "   ");
        push_str(&mut out, self.name.as_str());
        assert(out@ =~= hex16(self@.id) + "  "@ + pad3(decimal(count_true(self@.probes))) + " of "@
            + pad3(decimal(self@.probes.len())) + "   "@ + self@.name);
        string_of(&out, 0, out.len())
    }
}

} // verus!

use vstd::prelude::*;

use super::{blocks_view, BlockModel, GoCoverageError, GoProfileBlock, GoProfileMode, GoReport, ReportModel};
use super::error::GoErrorModel;
use crate::result::{fails_with, Error, ErrorModel};

verus! {

/// Whether `c` has the Unicode `White_Space` property.
pub open spec fn is_white_space(c: char) -> bool {
    ('\u{9}' <= c && c <= '\u{d}') || c == ' ' || c == '\u{85}' || c == '\u{a0}' || c
        == '\u{1680}' || ('\u{2000}' <= c && c <= '\u{200a}') || c == '\u{2028}' || c
        == '\u{2029}' || c == '\u{202f}' || c == '\u{205f}' || c == '\u{3000}'
}

/// Whether `c` is an ASCII decimal digit.
pub open spec fn is_digit(c: char) -> bool {
    '0' <= c && c <= '9'
}

/// The number that the decimal digits `s` write.
pub open spec fn digits_value(s: Seq<char>) -> nat
    decreases s.len(),
{
    if s.len() == 0 {
        0
    } else {
        digits_value(s.drop_last()) * 10 + (s.last() as u32 - '0' as u32) as nat
    }
}

/// Number of characters from `i` up to the next newline or the end of `s`.
pub open spec fn line_len(s: Seq<char>, i: int) -> nat
    decreases s.len() - i,
{
    if i < 0 || i >= s.len() || s[i] == '\n' {
        0
    } else {
        1 + line_len(s, i + 1)
    }
}

/// Length of `l` without its trailing whitespace.
pub open spec fn trimmed_len(l: Seq<char>) -> nat
    decreases l.len(),
{
    if l.len() > 0 && is_white_space(l.last()) {
        trimmed_len(l.drop_last())
    } else {
        l.len()
    }
}

/// Index of the last `:` among the first `n` characters of `l`, or -1.
pub open spec fn last_colon(l: Seq<char>, n: int) -> int
    decreases n,
{
    if n <= 0 {
        -1
    } else if l[n - 1] == ':' {
        n - 1
    } else {
        last_colon(l, n - 1)
    }
}

/// End of the run of digits of `l` that starts at `i`.
pub open spec fn digit_run_end(l: Seq<char>, i: int) -> int
    decreases l.len() - i,
{
    if 0 <= i < l.len() && is_digit(l[i]) {
        digit_run_end(l, i + 1)
    } else {
        i
    }
}

/// Start of numeric field `k` of a block line whose fields begin at `base`.
pub open spec fn field_start(l: Seq<char>, base: int, k: nat) -> int
    decreases k,
{
    if k == 0 {
        base
    } else {
        digit_run_end(l, field_start(l, base, (k - 1) as nat)) + 1
    }
}

/// End of numeric field `k`.
pub open spec fn field_end(l: Seq<char>, base: int, k: nat) -> int {
    digit_run_end(l, field_start(l, base, k))
}

/// The character that follows numeric field `k` (0 to 4).
pub open spec fn separator(k: nat) -> char {
    if k == 1 {
        ','
    } else if k <= 2 {
        '.'
    } else {
        ' '
    }
}

/// Numeric field `k` is a non-empty run of digits followed by its separator,
/// or, for the last field, by the end of the line.
pub open spec fn field_ok(l: Seq<char>, base: int, k: nat) -> bool {
    &&& field_start(l, base, k) < field_end(l, base, k)
    &&& if k < 5 {
        field_end(l, base, k) < l.len() && l[field_end(l, base, k)] == separator(k)
    } else {
        field_end(l, base, k) == l.len()
    }
}

/// From `base` on, `l` is `<n>.<n>,<n>.<n> <n> <n>` with digit runs `<n>`.
pub open spec fn fields_ok(l: Seq<char>, base: int) -> bool {
    forall|k: nat| k < 6 ==> field_ok(l, base, k)
}

/// The digits of numeric field `k`.
pub open spec fn field_text(l: Seq<char>, base: int, k: nat) -> Seq<char> {
    l.subrange(field_start(l, base, k), field_end(l, base, k))
}

/// The value of numeric field `k`.
pub open spec fn field_value(l: Seq<char>, base: int, k: nat) -> nat {
    digits_value(field_text(l, base, k))
}

/// The first numeric field from `k` on whose value does not fit in 32 bits, or -1.
pub open spec fn first_oversized(l: Seq<char>, base: int, k: nat) -> int
    decreases 6 - k,
{
    if k >= 6 {
        -1
    } else if field_value(l, base, k) > u32::MAX {
        k as int
    } else {
        first_oversized(l, base, k + 1)
    }
}

/// A block line (without trailing whitespace): a non-empty path, a colon
/// (the last one of the line), then `<n>.<n>,<n>.<n> <n> <n>`, the start line
/// and column, the end line and column, the statement count and the hit
/// count. A line of another shape is `InvalidLine`; a number that does not
/// fit in 32 bits is `ParseInt`.
pub open spec fn parse_block_line(l: Seq<char>) -> Result<BlockModel, ErrorModel> {
    let c = last_colon(l, l.len() as int);
    let base = c + 1;
    if c < 1 || !fields_ok(l, base) {
        Err(ErrorModel::Go(GoErrorModel::InvalidLine(l)))
    } else if first_oversized(l, base, 0) >= 0 {
        Err(ErrorModel::ParseInt(field_text(l, base, first_oversized(l, base, 0) as nat)))
    } else {
        Ok(
            BlockModel {
                filename: l.subrange(0, c),
                start_line: field_value(l, base, 0) as u32,
                start_col: field_value(l, base, 1) as u32,
                end_line: field_value(l, base, 2) as u32,
                end_col: field_value(l, base, 3) as u32,
                number_of_statements: field_value(l, base, 4) as u32,
                count: field_value(l, base, 5) as u32,
            },
        )
    }
}

/// The block lines of `s` from `i` on, after the blocks `acc`: each line ends
/// at a newline or at the end of the text, loses its trailing whitespace and
/// is parsed; the first failure is the result.
pub open spec fn decode_lines(s: Seq<char>, i: int, acc: Seq<BlockModel>) -> Result<
    Seq<BlockModel>,
    ErrorModel,
>
    decreases s.len() - i,
{
    if i < 0 || i >= s.len() {
        Ok(acc)
    } else {
        let line = s.subrange(i, i + line_len(s, i));
        match parse_block_line(line.subrange(0, trimmed_len(line) as int)) {
            Err(e) => Err(e),
            Ok(b) => if i + line_len(s, i) + 1 > s.len() {
                Ok(acc.push(b))
            } else {
                decode_lines(s, i + line_len(s, i) + 1, acc.push(b))
            },
        }
    }
}

/// `mode: `, which opens the first line.
pub open spec fn mode_prefix() -> Seq<char> {
    seq!['m', 'o', 'd', 'e', ':', ' ']
}

/// The name under which `m` is written.
pub open spec fn mode_name(m: GoProfileMode) -> Seq<char> {
    match m {
        GoProfileMode::SetMode => seq!['s', 'e', 't'],
        GoProfileMode::Count => seq!['c', 'o', 'u', 'n', 't'],
        GoProfileMode::Atomic => seq!['a', 't', 'o', 'm', 'i', 'c'],
    }
}

/// The mode written `name`, if any.
pub open spec fn mode_named(name: Seq<char>) -> Option<GoProfileMode> {
    if name == mode_name(GoProfileMode::SetMode) {
        Some(GoProfileMode::SetMode)
    } else if name == mode_name(GoProfileMode::Count) {
        Some(GoProfileMode::Count)
    } else if name == mode_name(GoProfileMode::Atomic) {
        Some(GoProfileMode::Atomic)
    } else {
        None
    }
}

/// Decoding of a whole textual profile: a first line `mode: <name>` ended by
/// a newline, then block lines up to the end of the text.
pub open spec fn decode_text(s: Seq<char>) -> Result<ReportModel, ErrorModel> {
    let n = line_len(s, 0) as int;
    if n >= s.len() || n < 6 || s.subrange(0, 6) != mode_prefix() {
        Err(ErrorModel::Go(GoErrorModel::InvalidMode))
    } else {
        match mode_named(s.subrange(6, n)) {
            None => Err(ErrorModel::Go(GoErrorModel::InvalidModeName(s.subrange(6, n)))),
            Some(mode) => match decode_lines(s, n + 1, seq![]) {
                Ok(blocks) => Ok(ReportModel { mode, blocks }),
                Err(e) => Err(e),
            },
        }
    }
}

/// Relies on `String: FromIterator<&char>`: the string of the characters
/// `v[from..to]`, in order.
#[verifier::external_body]
pub(crate) fn string_of(v: &Vec<char>, from: usize, to: usize) -> (r: String)
    requires
        from <= to <= v@.len(),
    ensures
        r@ == v@.subrange(from as int, to as int),
{
    v[from..to].iter().collect()
}

/// The characters of `text`, in order.
fn chars_of(text: &str) -> (r: Vec<char>)
    ensures
        r@ == text@,
{
    let mut v: Vec<char> = Vec::new();
    for c in it: text.chars()
        invariant
            v@ == it.seq().subrange(0, it.index() as int),
    {
        v.push(c);
    }
    v
}

/// Whether `c` has the Unicode `White_Space` property.
fn is_white_space_char(c: char) -> (r: bool)
    ensures
        r == is_white_space(c),
{
    ('\u{9}' <= c && c <= '\u{d}') || c == ' ' || c == '\u{85}' || c == '\u{a0}' || c
        == '\u{1680}' || ('\u{2000}' <= c && c <= '\u{200a}') || c == '\u{2028}' || c
        == '\u{2029}' || c == '\u{202f}' || c == '\u{205f}' || c == '\u{3000}'
}

/// The value of a prefix of decimal digits is at most the value of the whole.
proof fn lemma_digits_prefix_le(s: Seq<char>, n: int)
    requires
        0 <= n <= s.len(),
    ensures
        digits_value(s.subrange(0, n)) <= digits_value(s),
    decreases s.len(),
{
    if n < s.len() {
        lemma_digits_prefix_le(s.drop_last(), n);
        assert(s.drop_last().subrange(0, n) =~= s.subrange(0, n));
    } else {
        assert(s.subrange(0, n) =~= s);
    }
}

/// The characters of a run of digits are digits, and the run stays inside `l`.
proof fn lemma_digit_run(l: Seq<char>, i: int)
    requires
        0 <= i <= l.len(),
    ensures
        i <= digit_run_end(l, i) <= l.len(),
        forall|j: int| i <= j < digit_run_end(l, i) ==> is_digit(#[trigger] l[j]),
        digit_run_end(l, i) < l.len() ==> !is_digit(l[digit_run_end(l, i)]),
    decreases l.len() - i,
{
    if i < l.len() && is_digit(l[i]) {
        lemma_digit_run(l, i + 1);
    }
}

/// End of the run of digits of `l` that starts at `i`.
fn scan_digits(l: &Vec<char>, i: usize) -> (r: usize)
    requires
        i <= l@.len(),
    ensures
        r as int == digit_run_end(l@, i as int),
{
    let mut e = i;
    while e < l.len() && '0' <= l[e] && l[e] <= '9'
        invariant
            i <= e <= l@.len(),
            digit_run_end(l@, i as int) == digit_run_end(l@, e as int),
        decreases l@.len() - e,
    {
        e += 1;
    }
    e
}

/// The value of the digits `l[from..to]`, where it fits in 32 bits.
fn digits_u32(l: &Vec<char>, from: usize, to: usize) -> (r: Option<u32>)
    requires
        from <= to <= l@.len(),
        forall|j: int| from <= j < to ==> is_digit(#[trigger] l@[j]),
    ensures
        match r {
            Some(v) => v as nat == digits_value(l@.subrange(from as int, to as int)),
            None => digits_value(l@.subrange(from as int, to as int)) > u32::MAX,
        },
{
    let mut acc: u64 = 0;
    let mut i = from;
    while i < to
        invariant
            from <= i <= to <= l@.len(),
            forall|j: int| from <= j < to ==> is_digit(#[trigger] l@[j]),
            acc as nat == digits_value(l@.subrange(from as int, i as int)),
            acc <= u32::MAX,
        decreases to - i,
    {
        let d = (l[i] as u32 - '0' as u32) as u64;
        let next = acc * 10 + d;
        assert(l@.subrange(from as int, i + 1).drop_last() =~= l@.subrange(from as int, i as int));
        if next > u32::MAX as u64 {
            proof {
                let whole = l@.subrange(from as int, to as int);
                lemma_digits_prefix_le(whole, i + 1 - from);
                assert(whole.subrange(0, i + 1 - from) =~= l@.subrange(from as int, i + 1));
            }
            return None;
        }
        acc = next;
        i += 1;
    }
    Some(acc as u32)
}

/// The character that follows numeric field `k` (0 to 4).
fn separator_of(k: usize) -> (r: char)
    ensures
        r == separator(k as nat),
{
    if k == 1 {
        ','
    } else if k <= 2 {
        '.'
    } else {
        ' '
    }
}

impl GoProfileBlock {
    /// Parses one block line, given without its trailing whitespace.
    fn parse_line(l: &Vec<char>) -> (r: Result<GoProfileBlock, Error>)
        ensures
            match r {
                Ok(b) => parse_block_line(l@) == Ok::<_, ErrorModel>(b@),
                Err(e) => fails_with(parse_block_line(l@), e@),
            },
    {
        let len = l.len();
        let mut n = len;
        while n > 0 && l[n - 1] != ':'
            invariant
                n <= len == l@.len(),
                last_colon(l@, len as int) == last_colon(l@, n as int),
            decreases n,
        {
            n -= 1;
        }
        assert(l@.subrange(0, len as int) =~= l@);
        if n <= 1 {
            return Err(Error::Go(GoCoverageError::InvalidLine(string_of(l, 0, len))));
        }
        let c = n - 1;
        let base = n;
        let mut starts: Vec<usize> = Vec::new();
        let mut ends: Vec<usize> = Vec::new();
        let mut pos = base;
        let mut k: usize = 0;
        while k < 6
            invariant
                len == l@.len(),
                base <= len,
                k <= 6,
                k < 6 ==> pos <= len,
                k < 6 ==> pos as int == field_start(l@, base as int, k as nat),
                last_colon(l@, len as int) == c,
                c + 1 == base,
                l@.subrange(0, len as int) =~= l@,
                starts@.len() == k,
                ends@.len() == k,
                forall|j: int|
                    0 <= j < k ==> {
                        &&& starts@[j] as int == field_start(l@, base as int, j as nat)
                        &&& ends@[j] as int == field_end(l@, base as int, j as nat)
                        &&& field_ok(l@, base as int, j as nat)
                        &&& ends@[j] <= len
                    },
            decreases 6 - k,
        {
            proof {
                lemma_digit_run(l@, pos as int);
            }
            let e = scan_digits(l, pos);
            let ok = if e == pos {
                false
            } else if k < 5 {
                e < len && l[e] == separator_of(k)
            } else {
                e == len
            };
            if !ok {
                assert(!field_ok(l@, base as int, k as nat));
                return Err(Error::Go(GoCoverageError::InvalidLine(string_of(l, 0, len))));
            }
            starts.push(pos);
            ends.push(e);
            if k < 5 {
                pos = e + 1;
            }
            k += 1;
        }
        assert forall|j: nat| j < 6 implies field_ok(l@, base as int, j) by {
            assert(ends@[j as int] as int == field_end(l@, base as int, j));
        }
        assert(fields_ok(l@, base as int));
        let mut values: Vec<u32> = Vec::new();
        let mut k: usize = 0;
        while k < 6
            invariant
                len == l@.len(),
                fields_ok(l@, base as int),
                starts@.len() == 6,
                ends@.len() == 6,
                forall|j: int|
                    0 <= j < 6 ==> {
                        &&& starts@[j] as int == field_start(l@, base as int, j as nat)
                        &&& ends@[j] as int == field_end(l@, base as int, j as nat)
                        &&& ends@[j] <= len
                    },
                k <= 6,
                last_colon(l@, len as int) == c,
                c + 1 == base,
                c >= 1,
                values@.len() == k,
                forall|j: int| 0 <= j < k ==> values@[j] as nat == field_value(l@, base as int, j as nat),
                first_oversized(l@, base as int, 0) == first_oversized(l@, base as int, k as nat),
            decreases 6 - k,
        {
            assert(field_ok(l@, base as int, k as nat));
            proof {
                lemma_digit_run(l@, starts@[k as int] as int);
            }
            match digits_u32(l, starts[k], ends[k]) {
                Some(v) => {
                    values.push(v);
                },
                None => {
                    assert(first_oversized(l@, base as int, k as nat) == k);
                    return Err(Error::ParseInt(string_of(l, starts[k], ends[k])));
                },
            }
            k += 1;
        }
        let block = GoProfileBlock {
            filename: string_of(l, 0, c),
            start_line: values[0],
            start_col: values[1],
            end_line: values[2],
            end_col: values[3],
            number_of_statements: values[4],
            count: values[5],
        };
        Ok(block)
    }
}

/// The mode written `v[from..to]`, if any.
fn mode_from_name(v: &Vec<char>, from: usize, to: usize) -> (r: Option<GoProfileMode>)
    requires
        from <= to <= v@.len(),
    ensures
        r == mode_named(v@.subrange(from as int, to as int)),
{
    let ghost name = v@.subrange(from as int, to as int);
    let n = to - from;
    if n == 3 && v[from] == 's' && v[from + 1] == 'e' && v[from + 2] == 't' {
        assert(name =~= mode_name(GoProfileMode::SetMode));
        return Some(GoProfileMode::SetMode);
    }
    if n == 5 && v[from] == 'c' && v[from + 1] == 'o' && v[from + 2] == 'u' && v[from + 3] == 'n'
        && v[from + 4] == 't' {
        assert(name =~= mode_name(GoProfileMode::Count));
        return Some(GoProfileMode::Count);
    }
    if n == 6 && v[from] == 'a' && v[from + 1] == 't' && v[from + 2] == 'o' && v[from + 3] == 'm'
        && v[from + 4] == 'i' && v[from + 5] == 'c' {
        assert(name =~= mode_name(GoProfileMode::Atomic));
        return Some(GoProfileMode::Atomic);
    }
    assert(name != mode_name(GoProfileMode::SetMode)) by {
        if name == mode_name(GoProfileMode::SetMode) {
            assert(name.len() == 3);
            assert(to - from == 3);
            assert(name[0] == 's' && name[1] == 'e' && name[2] == 't');
            assert(name[0] == v@[from as int] && name[1] == v@[from + 1] && name[2] == v@[from
                + 2]);
        }
    }
    assert(name != mode_name(GoProfileMode::Count)) by {
        if name == mode_name(GoProfileMode::Count) {
            assert(name.len() == 5);
            assert(to - from == 5);
            assert(name[0] == 'c' && name[1] == 'o' && name[2] == 'u' && name[3] == 'n' && name[4]
                == 't');
            assert(name[0] == v@[from as int] && name[1] == v@[from + 1] && name[2] == v@[from + 2]
                && name[3] == v@[from + 3] && name[4] == v@[from + 4]);
        }
    }
    assert(name != mode_name(GoProfileMode::Atomic)) by {
        if name == mode_name(GoProfileMode::Atomic) {
            assert(name.len() == 6);
            assert(to - from == 6);
            assert(name[0] == 'a' && name[1] == 't' && name[2] == 'o' && name[3] == 'm' && name[4]
                == 'i' && name[5] == 'c');
            assert(name[0] == v@[from as int] && name[1] == v@[from + 1] && name[2] == v@[from + 2]
                && name[3] == v@[from + 3] && name[4] == v@[from + 4] && name[5] == v@[from + 5]);
        }
    }
    None
}

/// End of the line of `s` that starts at `i`: the index of the next newline,
/// or the length of `s`.
fn line_end_of(s: &Vec<char>, i: usize) -> (r: usize)
    requires
        i <= s@.len(),
    ensures
        r == i + line_len(s@, i as int),
        r <= s@.len(),
{
    let mut e = i;
    while e < s.len() && s[e] != '\n'
        invariant
            i <= e <= s@.len(),
            line_len(s@, i as int) == (e - i) + line_len(s@, e as int),
        decreases s@.len() - e,
    {
        e += 1;
    }
    e
}

/// Length of `s[from..to]` without its trailing whitespace.
fn trimmed_end(s: &Vec<char>, from: usize, to: usize) -> (r: usize)
    requires
        from <= to <= s@.len(),
    ensures
        r - from == trimmed_len(s@.subrange(from as int, to as int)),
        from <= r <= to,
{
    let mut t = to;
    while t > from && is_white_space_char(s[t - 1])
        invariant
            from <= t <= to <= s@.len(),
            trimmed_len(s@.subrange(from as int, to as int)) == trimmed_len(
                s@.subrange(from as int, t as int),
            ),
        decreases t,
    {
        assert(s@.subrange(from as int, t as int).drop_last() =~= s@.subrange(
            from as int,
            t - 1,
        ));
        t -= 1;
    }
    t
}

/// A copy of `s[from..to]`.
fn copy_range(s: &Vec<char>, from: usize, to: usize) -> (r: Vec<char>)
    requires
        from <= to <= s@.len(),
    ensures
        r@ == s@.subrange(from as int, to as int),
{
    let mut v: Vec<char> = Vec::new();
    let mut i = from;
    while i < to
        invariant
            from <= i <= to <= s@.len(),
            v@ == s@.subrange(from as int, i as int),
        decreases to - i,
    {
        v.push(s[i]);
        i += 1;
        assert(v@ =~= s@.subrange(from as int, i as int));
    }
    v
}

impl GoReport {
    /// Decodes a textual profile: the first line must be `mode: <name>`
    /// ended by a newline, with `<name>` one of `set`, `count` and
    /// `atomic`; every further line, up to the end of the text, is a block
    /// line. The first failure is returned.
    pub fn from_buf_read(text: &str) -> (r: Result<GoReport, Error>)
        ensures
            match r {
                Ok(rep) => decode_text(text@) == Ok::<_, ErrorModel>(rep@),
                Err(e) => fails_with(decode_text(text@), e@),
            },
    {
        let s = chars_of(text);
        let n = line_end_of(&s, 0);
        if n >= s.len() || n < 6 || s[0] != 'm' || s[1] != 'o' || s[2] != 'd' || s[3] != 'e' || s[4]
            != ':' || s[5] != ' ' {
            proof {
                if n < s@.len() && n >= 6 {
                    let p = s@.subrange(0, 6);
                    assert(p[0] == s@[0] && p[1] == s@[1] && p[2] == s@[2] && p[3] == s@[3] && p[4]
                        == s@[4] && p[5] == s@[5]);
                }
            }
            return Err(Error::Go(GoCoverageError::InvalidMode));
        }
        assert(s@.subrange(0, 6) =~= mode_prefix());
        let mode = match mode_from_name(&s, 6, n) {
            Some(m) => m,
            None => {
                return Err(Error::Go(GoCoverageError::InvalidModeName(string_of(&s, 6, n))));
            },
        };
        let mut blocks: Vec<GoProfileBlock> = Vec::new();
        let mut i = n + 1;
        assert(blocks_view(blocks@) =~= seq![]);
        while i < s.len()
            invariant
                i <= s@.len() + 1,
                s@ == text@,
                6 <= n < s@.len(),
                line_len(s@, 0) == n,
                s@.subrange(0, 6) == mode_prefix(),
                mode_named(s@.subrange(6, n as int)) == Some(mode),
                decode_lines(s@, n + 1, seq![]) == decode_lines(s@, i as int, blocks_view(blocks@)),
            decreases s@.len() - i,
        {
            let e = line_end_of(&s, i);
            let t = trimmed_end(&s, i, e);
            let line = copy_range(&s, i, t);
            proof {
                let whole = s@.subrange(i as int, e as int);
                assert(whole.subrange(0, trimmed_len(whole) as int) =~= line@);
            }
            match GoProfileBlock::parse_line(&line) {
                Ok(b) => {
                    let ghost before = blocks_view(blocks@);
                    blocks.push(b);
                    assert(blocks_view(blocks@) =~= before.push(b@));
                },
                Err(err) => {
                    assert(fails_with(decode_lines(s@, i as int, blocks_view(blocks@)), err@));
                    return Err(err);
                },
            }
            i = if e < s.len() {
                e + 1
            } else {
                e
            };
        }
        let rep = GoReport { mode, blocks };
        Ok(rep)
    }
}

impl core::str::FromStr for GoProfileMode {
    type Err = Error;

    /// The mode written `s`: `set`, `count` or `atomic`.
    fn from_str(s: &str) -> (r: Result<GoProfileMode, Error>)
        ensures
            match r {
                Ok(m) => mode_named(s@) == Some(m),
                Err(e) => mode_named(s@) is None && e@ == ErrorModel::Go(
                    GoErrorModel::InvalidModeName(s@),
                ),
            },
    {
        let v = chars_of(s);
        assert(v@.subrange(0, v@.len() as int) =~= v@);
        match mode_from_name(&v, 0, v.len()) {
            Some(m) => Ok(m),
            None => Err(Error::Go(GoCoverageError::InvalidModeName(string_of(&v, 0, v.len())))),
        }
    }
}

impl core::str::FromStr for GoProfileBlock {
    type Err = Error;

    /// The block that the line `s` writes; the whole of `s` must follow the
    /// block grammar.
    fn from_str(s: &str) -> (r: Result<GoProfileBlock, Error>)
        ensures
            match r {
                Ok(b) => parse_block_line(s@) == Ok::<_, ErrorModel>(b@),
                Err(e) => fails_with(parse_block_line(s@), e@),
            },
    {
        let v = chars_of(s);
        GoProfileBlock::parse_line(&v)
    }
}

} // verus!

use vstd::prelude::*;

use super::reader::{
    decode_lines, decode_text, digit_run_end, digits_value, field_ok, field_start,
    field_text, field_value, fields_ok, first_oversized, is_digit, is_white_space, last_colon,
    line_len, mode_name, mode_named, mode_prefix, parse_block_line, separator, trimmed_len,
};
use super::writer::{block_body, decimal, digit_char, encode_blocks, encode_text};
use super::{BlockModel, ReportModel};
use crate::result::ErrorModel;

verus! {

/// The numbers of a block, in the order of its line.
pub open spec fn block_numbers(b: BlockModel) -> Seq<u32> {
    seq![b.start_line, b.start_col, b.end_line, b.end_col, b.number_of_statements, b.count]
}

/// The numeric part of a block line from field `k` on.
pub open spec fn numbers_text(vals: Seq<u32>, k: nat) -> Seq<char>
    decreases 5 - k,
{
    if k >= 5 {
        decimal(vals[5] as nat)
    } else {
        decimal(vals[k as int] as nat) + seq![separator(k)] + numbers_text(vals, k + 1)
    }
}

/// A file name that a block line can carry: not empty, without a newline.
pub open spec fn writable_filename(f: Seq<char>) -> bool {
    f.len() > 0 && forall|j: int| 0 <= j < f.len() ==> f[j] != '\n'
}

/// Decimal text is a non-empty run of digits that reads back as the number.
proof fn lemma_decimal(n: nat)
    ensures
        decimal(n).len() >= 1,
        forall|j: int| 0 <= j < decimal(n).len() ==> is_digit(#[trigger] decimal(n)[j]),
        digits_value(decimal(n)) == n,
    decreases n,
{
    let d = n % 10;
    assert(is_digit(digit_char(d)));
    assert(digit_char(d) as u32 - '0' as u32 == d);
    if n < 10 {
        let s = decimal(n);
        assert(s.drop_last() =~= seq![]);
        assert(s.last() == digit_char(d));
        assert(n % 10 == n);
        assert(digits_value(s) == digits_value(s.drop_last()) * 10 + (s.last() as u32 - '0' as u32) as nat);
    } else {
        lemma_decimal(n / 10);
        let s = decimal(n);
        assert(s.drop_last() =~= decimal(n / 10));
        assert(s.last() == digit_char(d));
        assert(n == (n / 10) * 10 + d);
        assert(digits_value(s) == digits_value(s.drop_last()) * 10 + (s.last() as u32 - '0' as u32) as nat);
    }
}

/// A run of digits from `i` that ends at `e` ends the digit scan at `e`.
proof fn lemma_run_end(l: Seq<char>, i: int, e: int)
    requires
        0 <= i <= e <= l.len(),
        forall|j: int| i <= j < e ==> is_digit(#[trigger] l[j]),
        e == l.len() || !is_digit(l[e]),
    ensures
        digit_run_end(l, i) == e,
    decreases e - i,
{
    if i < e {
        lemma_run_end(l, i + 1, e);
    }
}

/// The numeric part of a line is not empty, holds no colon and no newline,
/// and ends with a digit.
proof fn lemma_numbers_chars(vals: Seq<u32>, k: nat)
    requires
        vals.len() == 6,
        k <= 5,
    ensures
        numbers_text(vals, k).len() >= 1,
        forall|j: int|
            0 <= j < numbers_text(vals, k).len() ==> #[trigger] numbers_text(vals, k)[j] != ':'
                && numbers_text(vals, k)[j] != '\n',
        is_digit(numbers_text(vals, k).last()),
    decreases 5 - k,
{
    lemma_decimal(vals[k as int] as nat);
    if k < 5 {
        lemma_numbers_chars(vals, k + 1);
        let d = decimal(vals[k as int] as nat);
        let t = numbers_text(vals, k + 1);
        let whole = d + seq![separator(k)] + t;
        assert(numbers_text(vals, k) == whole);
        assert forall|j: int| 0 <= j < whole.len() implies #[trigger] whole[j] != ':' && whole[j]
            != '\n' by {
            if j < d.len() {
                assert(whole[j] == d[j]);
            } else if j == d.len() {
                assert(whole[j] == separator(k));
            } else {
                assert(whole[j] == t[j - d.len() - 1]);
            }
        }
        assert(whole.last() == t.last());
    } else {
        let d = decimal(vals[5] as nat);
        assert forall|j: int| 0 <= j < d.len() implies #[trigger] d[j] != ':' && d[j] != '\n' by {
            assert(is_digit(d[j]));
        }
        assert(is_digit(d[d.len() - 1]));
    }
}

/// The numeric fields of a line whose text from field `k` on is
/// `numbers_text(vals, k)` are well formed and hold `vals`.
proof fn lemma_numbers_parse(l: Seq<char>, base: int, vals: Seq<u32>, k: nat)
    requires
        vals.len() == 6,
        k <= 5,
        0 <= field_start(l, base, k) <= l.len(),
        l.subrange(field_start(l, base, k), l.len() as int) == numbers_text(vals, k),
    ensures
        forall|j: nat|
            #![trigger field_ok(l, base, j)]
            #![trigger field_value(l, base, j)]
            k <= j < 6 ==> field_ok(l, base, j) && field_value(l, base, j) == vals[j as int] as nat,
    decreases 5 - k,
{
    let p = field_start(l, base, k);
    let d = decimal(vals[k as int] as nat);
    let t = numbers_text(vals, k);
    lemma_decimal(vals[k as int] as nat);
    let e = p + d.len();
    if k < 5 {
        assert(t == d + seq![separator(k)] + numbers_text(vals, k + 1));
    } else {
        assert(t == d);
    }
    assert(t.len() == l.len() - p);
    assert(d.len() <= t.len());
    assert forall|j: int| p <= j < e implies is_digit(#[trigger] l[j]) by {
        assert(l[j] == l.subrange(p, l.len() as int)[j - p]);
        assert(t[j - p] == d[j - p]);
    }
    if k < 5 {
        let rest = numbers_text(vals, k + 1);
        assert(t == d + seq![separator(k)] + rest);
        assert(l[e] == l.subrange(p, l.len() as int)[d.len() as int]);
        assert(t[d.len() as int] == separator(k));
        lemma_run_end(l, p, e);
        assert(field_text(l, base, k) =~= d);
        assert(field_start(l, base, k + 1) == e + 1);
        assert(t.subrange(d.len() as int + 1, t.len() as int) =~= rest);
        assert(l.subrange(e + 1, l.len() as int) =~= t.subrange(d.len() as int + 1, t.len() as int));
        lemma_numbers_parse(l, base, vals, k + 1);
        assert(field_ok(l, base, k));
    } else {
        assert(t == d);
        assert(e == l.len());
        lemma_run_end(l, p, e);
        assert(field_text(l, base, k) =~= d);
        assert(field_ok(l, base, k));
    }
}

/// The last colon among the first `n` characters is the one at `c` when none follows it.
proof fn lemma_last_colon(l: Seq<char>, c: int, n: int)
    requires
        0 <= c < n <= l.len(),
        l[c] == ':',
        forall|j: int| c < j < n ==> #[trigger] l[j] != ':',
    ensures
        last_colon(l, n) == c,
    decreases n,
{
    if n - 1 > c {
        lemma_last_colon(l, c, n - 1);
    }
}

/// No numeric field from `k` on is too large when all values fit.
proof fn lemma_no_oversized(l: Seq<char>, base: int, k: nat)
    requires
        forall|j: nat| k <= j < 6 ==> #[trigger] field_value(l, base, j) <= u32::MAX,
    ensures
        first_oversized(l, base, k) == -1,
    decreases 6 - k,
{
    if k < 6 {
        lemma_no_oversized(l, base, k + 1);
    }
}

/// A block's text is its file name, a colon and its numeric part.
proof fn lemma_body_shape(b: BlockModel)
    ensures
        block_body(b) == b.filename + seq![':'] + numbers_text(block_numbers(b), 0),
{
    reveal(block_body);
    reveal_with_fuel(numbers_text, 7);
    let vals = block_numbers(b);
    assert(vals[0] == b.start_line && vals[1] == b.start_col && vals[2] == b.end_line && vals[3]
        == b.end_col && vals[4] == b.number_of_statements && vals[5] == b.count);
    assert(block_body(b) =~= b.filename + seq![':'] + numbers_text(vals, 0));
}

/// A file name, a colon and a numeric part parse back to the block they
/// write, have no trailing whitespace and hold no newline.
proof fn lemma_line_parses(l: Seq<char>, f: Seq<char>, vals: Seq<u32>)
    requires
        writable_filename(f),
        vals.len() == 6,
        l == f + seq![':'] + numbers_text(vals, 0),
    ensures
        parse_block_line(l) == Ok::<_, ErrorModel>(
            BlockModel {
                filename: f,
                start_line: vals[0],
                start_col: vals[1],
                end_line: vals[2],
                end_col: vals[3],
                number_of_statements: vals[4],
                count: vals[5],
            },
        ),
        trimmed_len(l) == l.len(),
        forall|j: int| 0 <= j < l.len() ==> #[trigger] l[j] != '\n',
{
    let nt = numbers_text(vals, 0);
    lemma_numbers_chars(vals, 0);
    let c = f.len() as int;
    let base = c + 1;
    assert(l[c] == ':');
    assert forall|j: int| c < j < l.len() implies #[trigger] l[j] != ':' by {
        assert(l[j] == nt[j - base]);
    }
    lemma_last_colon(l, c, l.len() as int);
    assert(l.subrange(base, l.len() as int) =~= nt);
    lemma_numbers_parse(l, base, vals, 0);
    assert(fields_ok(l, base));
    lemma_no_oversized(l, base, 0);
    assert(l.subrange(0, c) =~= f);
    assert(l.last() == nt.last());
    assert(!is_white_space(l.last()));
    assert forall|j: int| 0 <= j < l.len() implies #[trigger] l[j] != '\n' by {
        if j >= base {
            assert(l[j] == nt[j - base]);
        }
    }
}

/// The text of a block parses back to the block, has no trailing
/// whitespace and holds no newline.
proof fn lemma_body_parses(b: BlockModel)
    requires
        writable_filename(b.filename),
    ensures
        parse_block_line(block_body(b)) == Ok::<_, ErrorModel>(b),
        trimmed_len(block_body(b)) == block_body(b).len(),
        forall|j: int| 0 <= j < block_body(b).len() ==> #[trigger] block_body(b)[j] != '\n',
{
    lemma_body_shape(b);
    lemma_line_parses(block_body(b), b.filename, block_numbers(b));
}

/// A line of `k` characters without newline, followed by a newline, has length `k`.
proof fn lemma_line_len(s: Seq<char>, i: int, k: int)
    requires
        0 <= i,
        0 <= k,
        i + k < s.len(),
        forall|j: int| i <= j < i + k ==> #[trigger] s[j] != '\n',
        s[i + k] == '\n',
    ensures
        line_len(s, i) == k,
    decreases k,
{
    if k > 0 {
        lemma_line_len(s, i + 1, k - 1);
    }
}

/// The block lines of a text that ends with the lines of `bs` decode to `bs`.
proof fn lemma_decode_lines(s: Seq<char>, i: int, acc: Seq<BlockModel>, bs: Seq<BlockModel>)
    requires
        0 <= i <= s.len(),
        s.subrange(i, s.len() as int) == encode_blocks(bs),
        forall|j: int| 0 <= j < bs.len() ==> writable_filename(#[trigger] bs[j].filename),
    ensures
        decode_lines(s, i, acc) == Ok::<_, ErrorModel>(acc + bs),
    decreases bs.len(),
{
    if bs.len() == 0 {
        assert(s.subrange(i, s.len() as int).len() == 0);
        assert(acc + bs =~= acc);
    } else {
        let b = bs[0];
        let body = block_body(b);
        let k = body.len() as int;
        let rest = encode_blocks(bs.drop_first());
        assert(writable_filename(bs[0].filename));
        lemma_body_parses(b);
        let tail = s.subrange(i, s.len() as int);
        assert(bs[0] == b);
        assert(tail == body + seq!['\n'] + rest);
        assert forall|j: int| i <= j < i + k implies #[trigger] s[j] != '\n' by {
            assert(s[j] == tail[j - i]);
            assert(tail[j - i] == body[j - i]);
        }
        assert(s[i + k] == tail[k]);
        lemma_line_len(s, i, k);
        let line = s.subrange(i, i + k);
        assert(line =~= body);
        assert(line.subrange(0, trimmed_len(line) as int) =~= body);
        assert(tail.subrange(k + 1, tail.len() as int) =~= rest);
        assert(s.subrange(i + k + 1, s.len() as int) =~= tail.subrange(k + 1, tail.len() as int));
        assert forall|j: int| 0 <= j < bs.drop_first().len() implies writable_filename(
            #[trigger] bs.drop_first()[j].filename,
        ) by {
            assert(bs.drop_first()[j] == bs[j + 1]);
        }
        lemma_decode_lines(s, i + k + 1, acc.push(b), bs.drop_first());
        assert(acc.push(b) + bs.drop_first() =~= acc + bs);
    }
}

/// Decoding the text of a profile whose file names are not empty and hold no
/// newline gives the profile back; so decoding such a text and writing the
/// result again reproduces the text exactly. (A text that is not the writing
/// of a profile, such as one with a leading zero in a number or with trailing
/// spaces, decodes but is written back in this canonical form.)
pub proof fn law_decode_encode(r: ReportModel)
    requires
        forall|i: int| 0 <= i < r.blocks.len() ==> writable_filename(#[trigger] r.blocks[i].filename),
    ensures
        decode_text(encode_text(r)) == Ok::<_, ErrorModel>(r),
        encode_text(decode_text(encode_text(r))->Ok_0) == encode_text(r),
{
    let s = encode_text(r);
    let name = mode_name(r.mode);
    let n = 6 + name.len() as int;
    let head = mode_prefix() + name;
    assert(s == head + seq!['\n'] + encode_blocks(r.blocks));
    assert forall|j: int| 0 <= j < n implies #[trigger] s[j] != '\n' by {
        assert(s[j] == head[j]);
        if j < 6 {
            assert(head[j] == mode_prefix()[j]);
        } else {
            assert(head[j] == name[j - 6]);
        }
    }
    assert(s[n] == '\n');
    lemma_line_len(s, 0, n);
    assert(s.subrange(0, 6) =~= mode_prefix());
    assert(s.subrange(6, n) =~= name);
    assert(mode_named(name) == Some(r.mode));
    assert(s.subrange(n + 1, s.len() as int) =~= encode_blocks(r.blocks));
    lemma_decode_lines(s, n + 1, seq![], r.blocks);
    assert(seq![] + r.blocks =~= r.blocks);
}

} // verus!

use vstd::prelude::*;

use super::reader::{mode_name, mode_prefix, string_of};
use super::{BlockModel, GoProfileBlock, GoProfileMode, GoReport, ReportModel};

verus! {

/// The decimal digit character for `d` (0 to 9).
pub open spec fn digit_char(d: nat) -> char {
    if d == 0 {
        '0'
    } else if d == 1 {
        '1'
    } else if d == 2 {
        '2'
    } else if d == 3 {
        '3'
    } else if d == 4 {
        '4'
    } else if d == 5 {
        '5'
    } else if d == 6 {
        '6'
    } else if d == 7 {
        '7'
    } else if d == 8 {
        '8'
    } else {
        '9'
    }
}

/// `n` written in decimal, without leading zeros.
pub open spec fn decimal(n: nat) -> Seq<char>
    decreases n,
{
    if n < 10 {
        seq![digit_char(n)]
    } else {
        decimal(n / 10).push(digit_char(n % 10))
    }
}

/// The text that writes block `b`, without its newline:
/// `<filename>:<start_line>.<start_col>,<end_line>.<end_col> <statements> <count>`.
#[verifier::opaque]
pub open spec fn block_body(b: BlockModel) -> Seq<char> {
    b.filename + seq![':'] + decimal(b.start_line as nat) + seq!['.'] + decimal(
        b.start_col as nat,
    ) + seq![','] + decimal(b.end_line as nat) + seq!['.'] + decimal(b.end_col as nat) + seq![
        ' ',
    ] + decimal(b.number_of_statements as nat) + seq![' '] + decimal(b.count as nat)
}

/// The line that writes block `b`, newline included.
pub open spec fn block_line(b: BlockModel) -> Seq<char> {
    block_body(b) + seq!['\n']
}

/// The lines of `bs`, in order.
pub open spec fn encode_blocks(bs: Seq<BlockModel>) -> Seq<char>
    decreases bs.len(),
{
    if bs.len() == 0 {
        seq![]
    } else {
        block_line(bs[0]) + encode_blocks(bs.drop_first())
    }
}

/// The text of a profile: `mode: <name>`, a newline, then one line per block
/// in the report's order.
pub open spec fn encode_text(r: ReportModel) -> Seq<char> {
    mode_prefix() + mode_name(r.mode) + seq!['\n'] + encode_blocks(r.blocks)
}

/// Writing one more block appends its line.
proof fn lemma_encode_blocks_push(bs: Seq<BlockModel>, b: BlockModel)
    ensures
        encode_blocks(bs.push(b)) == encode_blocks(bs) + block_line(b),
    decreases bs.len(),
{
    if bs.len() == 0 {
        assert(bs.push(b).drop_first() =~= seq![]);
        assert(encode_blocks(bs.push(b).drop_first()) =~= seq![]);
        assert(bs.push(b)[0] == b);
        assert(encode_blocks(bs.push(b)) =~= block_line(b));
        assert(encode_blocks(bs) =~= seq![]);
    } else {
        lemma_encode_blocks_push(bs.drop_first(), b);
        assert(bs.push(b).drop_first() =~= bs.drop_first().push(b));
        assert(encode_blocks(bs.push(b)) =~= encode_blocks(bs) + block_line(b));
    }
}

/// The decimal digit character for `d`.
pub(crate) fn digit_char_of(d: u64) -> (r: char)
    requires
        d < 10,
    ensures
        r == digit_char(d as nat),
{
    if d == 0 {
        '0'
    } else if d == 1 {
        '1'
    } else if d == 2 {
        '2'
    } else if d == 3 {
        '3'
    } else if d == 4 {
        '4'
    } else if d == 5 {
        '5'
    } else if d == 6 {
        '6'
    } else if d == 7 {
        '7'
    } else if d == 8 {
        '8'
    } else {
        '9'
    }
}

/// Appends `n` in decimal.
pub(crate) fn push_decimal(out: &mut Vec<char>, n: u64)
    ensures
        final(out)@ == old(out)@ + decimal(n as nat),
    decreases n,
{
    if n >= 10 {
        push_decimal(out, n / 10);
    }
    let ghost before = out@;
    out.push(digit_char_of(n % 10));
    proof {
        if n >= 10 {
            assert(out@ =~= old(out)@ + decimal(n as nat));
        } else {
            assert(out@ =~= old(out)@ + decimal(n as nat));
        }
    }
}

/// Appends the characters of `s`.
pub(crate) fn push_str(out: &mut Vec<char>, s: &str)
    ensures
        final(out)@ == old(out)@ + s@,
{
    for c in it: s.chars()
        invariant
            out@ == old(out)@ + it.seq().subrange(0, it.index() as int),
    {
        out.push(c);
    }
}

impl GoProfileMode {
    /// The name under which the mode is written.
    pub fn as_str(&self) -> (r: &'static str)
        ensures
            r@ == mode_name(*self),
    {
        match self {
            GoProfileMode::SetMode => {
                proof {
                    reveal_strlit("set");
                }
                "set"
            },
            GoProfileMode::Count => {
                proof {
                    reveal_strlit("count");
                }
                "count"
            },
            GoProfileMode::Atomic => {
                proof {
                    reveal_strlit("atomic");
                }
                "atomic"
            },
        }
    }
}

impl GoProfileBlock {
    /// Appends the line of this block.
    fn write_line(&self, out: &mut Vec<char>)
        ensures
            final(out)@ == old(out)@ + block_line(self@),
    {
        push_str(out, self.filename.as_str());
        out.push(':');
        push_decimal(out, self.start_line as u64);
        out.push('.');
        push_decimal(out, self.start_col as u64);
        out.push(',');
        push_decimal(out, self.end_line as u64);
        out.push('.');
        push_decimal(out, self.end_col as u64);
        out.push(' ');
        push_decimal(out, self.number_of_statements as u64);
        out.push(' ');
        push_decimal(out, self.count as u64);
        out.push('\n');
        reveal(block_body);
        assert(out@ =~= old(out)@ + block_line(self@));
    }
}

impl GoReport {
    /// Writes the profile as text: the exact inverse of decoding for the
    /// blocks it holds, in their current order.
    pub fn encode(&self) -> (r: String)
        ensures
            r@ == encode_text(self@),
    {
        let mut out: Vec<char> = Vec::new();
        proof {
            reveal_strlit("mode: ");
        }
        push_str(&mut out, "mode: ");
        push_str(&mut out, self.mode.as_str());
        out.push('\n');
        assert(out@ =~= mode_prefix() + mode_name(self@.mode) + seq!['\n'] + encode_blocks(
            self@.blocks.subrange(0, 0),
        ));
        let mut i: usize = 0;
        while i < self.blocks.len()
            invariant
                i <= self.blocks@.len(),
                out@ == mode_prefix() + mode_name(self@.mode) + seq!['\n'] + encode_blocks(
                    self@.blocks.subrange(0, i as int),
                ),
            decreases self.blocks@.len() - i,
        {
            self.blocks[i].write_line(&mut out);
            proof {
                lemma_encode_blocks_push(self@.blocks.subrange(0, i as int), self@.blocks[i as int]);
                assert(self@.blocks.subrange(0, i as int).push(self@.blocks[i as int])
                    =~= self@.blocks.subrange(0, i + 1));
            }
            i += 1;
        }
        assert(self@.blocks.subrange(0, i as int) =~= self@.blocks);
        string_of(&out, 0, out.len())
    }
}

} // verus!

use vstd::prelude::*;
use vstd::utf8::{encode_utf8, encode_utf8_decode_utf8};

use super::error::GoErrorModel;
use super::{blocks_view, BlockModel, GoCoverageError, GoProfileBlock, GoProfileMode, GoReport, ReportModel};
use crate::result::{Error, ErrorModel};

verus! {

/// The identity of a block: file, start line and column, end line and column.
pub type BlockKey = (Seq<char>, u32, u32, u32, u32);

/// The identity of block `b`.
pub open spec fn key_of(b: BlockModel) -> BlockKey {
    (b.filename, b.start_line, b.start_col, b.end_line, b.end_col)
}

/// The blocks of `bs` by identity; of blocks with one identity the later wins.
pub open spec fn block_table(bs: Seq<BlockModel>) -> Map<BlockKey, BlockModel>
    decreases bs.len(),
{
    if bs.len() == 0 {
        Map::empty()
    } else {
        block_table(bs.drop_last()).insert(key_of(bs.last()), bs.last())
    }
}

/// The mode of a merge: the first of `a` and `b` that is not `set`, else `set`.
pub open spec fn merged_mode(a: GoProfileMode, b: GoProfileMode) -> GoProfileMode {
    if a != GoProfileMode::SetMode {
        a
    } else {
        b
    }
}

/// Two hit counts combined: `or` in `set` mode, else a sum that saturates at
/// `u32::MAX`.
pub open spec fn combine_counts(mode: GoProfileMode, x: u32, y: u32) -> u32 {
    match mode {
        GoProfileMode::SetMode => x | y,
        _ => if x + y > u32::MAX {
            u32::MAX
        } else {
            (x + y) as u32
        },
    }
}

/// Folding block `b` into the table `m`: a block with no hits changes
/// nothing; a new identity is added; a known one must have the same
/// statement count, and its hit count is combined with `b`'s.
pub open spec fn fold_block(m: Map<BlockKey, BlockModel>, b: BlockModel, mode: GoProfileMode) -> Result<
    Map<BlockKey, BlockModel>,
    GoErrorModel,
> {
    if b.count == 0 {
        Ok(m)
    } else if m.contains_key(key_of(b)) {
        let e = m[key_of(b)];
        if e.number_of_statements != b.number_of_statements {
            Err(
                GoErrorModel::InconsistentNumStmt {
                    from: b.number_of_statements,
                    to: e.number_of_statements,
                },
            )
        } else {
            Ok(m.insert(key_of(b), BlockModel { count: combine_counts(mode, e.count, b.count), ..e }))
        }
    } else {
        Ok(m.insert(key_of(b), b))
    }
}

/// Folding the blocks `bs` into `m` in order; the first failure is the result.
pub open spec fn fold_blocks(
    m: Map<BlockKey, BlockModel>,
    bs: Seq<BlockModel>,
    mode: GoProfileMode,
) -> Result<Map<BlockKey, BlockModel>, GoErrorModel>
    decreases bs.len(),
{
    if bs.len() == 0 {
        Ok(m)
    } else {
        match fold_blocks(m, bs.drop_last(), mode) {
            Ok(m1) => fold_block(m1, bs.last(), mode),
            Err(e) => Err(e),
        }
    }
}

/// The blocks of the merge of `a` and `b` by identity: the table of `a` with
/// the blocks of `b` folded in.
pub open spec fn merged_table(a: ReportModel, b: ReportModel) -> Result<
    Map<BlockKey, BlockModel>,
    GoErrorModel,
> {
    fold_blocks(block_table(a.blocks), b.blocks, merged_mode(a.mode, b.mode))
}

/// A failure while folding a prefix of `bs` is the failure of folding all of `bs`.
pub(crate) proof fn lemma_fold_error_stays(
    m: Map<BlockKey, BlockModel>,
    bs: Seq<BlockModel>,
    k: int,
    mode: GoProfileMode,
)
    requires
        0 <= k <= bs.len(),
        fold_blocks(m, bs.subrange(0, k), mode) is Err,
    ensures
        fold_blocks(m, bs, mode) == fold_blocks(m, bs.subrange(0, k), mode),
    decreases bs.len() - k,
{
    if k == bs.len() {
        assert(bs.subrange(0, k) =~= bs);
    } else {
        assert(bs.subrange(0, k + 1).drop_last() =~= bs.subrange(0, k));
        lemma_fold_error_stays(m, bs, k + 1, mode);
    }
}

/// `r` is a merge of `a` and `b`: it has the merged mode and holds the
/// merged blocks, sorted by identity.
pub open spec fn is_merge_of(r: ReportModel, a: ReportModel, b: ReportModel) -> bool {
    &&& merged_table(a, b) is Ok
    &&& r.mode == merged_mode(a.mode, b.mode)
    &&& sorted_by_key(r.blocks)
    &&& block_table(r.blocks) == merged_table(a, b)->Ok_0
}

/// Lexicographic order of byte sequences.
pub open spec fn bytes_lt(a: Seq<u8>, b: Seq<u8>) -> bool
    decreases a.len(),
{
    if a.len() == 0 {
        b.len() > 0
    } else if b.len() == 0 {
        false
    } else if a[0] != b[0] {
        a[0] < b[0]
    } else {
        bytes_lt(a.drop_first(), b.drop_first())
    }
}

/// Order of identities: file names by their UTF-8 bytes, then the positions.
pub open spec fn key_lt(x: BlockKey, y: BlockKey) -> bool {
    bytes_lt(encode_utf8(x.0), encode_utf8(y.0)) || (x.0 == y.0 && (x.1 < y.1 || (x.1 == y.1 && (
    x.2 < y.2 || (x.2 == y.2 && (x.3 < y.3 || (x.3 == y.3 && x.4 < y.4)))))))
}

/// The blocks are in strictly increasing order of identity.
pub open spec fn sorted_by_key(bs: Seq<BlockModel>) -> bool {
    forall|i: int, j: int| 0 <= i < j < bs.len() ==> key_lt(key_of(bs[i]), key_of(bs[j]))
}

proof fn lemma_bytes_lt_irreflexive(a: Seq<u8>)
    ensures
        !bytes_lt(a, a),
    decreases a.len(),
{
    if a.len() > 0 {
        lemma_bytes_lt_irreflexive(a.drop_first());
    }
}

proof fn lemma_bytes_lt_transitive(a: Seq<u8>, b: Seq<u8>, c: Seq<u8>)
    requires
        bytes_lt(a, b),
        bytes_lt(b, c),
    ensures
        bytes_lt(a, c),
    decreases a.len(),
{
    if a.len() > 0 && b.len() > 0 && c.len() > 0 && a[0] == b[0] && b[0] == c[0] {
        lemma_bytes_lt_transitive(a.drop_first(), b.drop_first(), c.drop_first());
    }
}

proof fn lemma_bytes_lt_total(a: Seq<u8>, b: Seq<u8>)
    ensures
        a == b || bytes_lt(a, b) || bytes_lt(b, a),
    decreases a.len(),
{
    if a.len() > 0 && b.len() > 0 && a[0] == b[0] {
        lemma_bytes_lt_total(a.drop_first(), b.drop_first());
        if a.drop_first() == b.drop_first() {
            assert(a =~= seq![a[0]] + a.drop_first());
            assert(b =~= seq![b[0]] + b.drop_first());
        }
    } else if a.len() == 0 && b.len() == 0 {
        assert(a =~= b);
    }
}

/// `key_lt` is a strict total order.
pub proof fn lemma_key_order()
    ensures
        forall|x: BlockKey| !#[trigger] key_lt(x, x),
        forall|x: BlockKey, y: BlockKey, z: BlockKey|
            #[trigger] key_lt(x, y) && #[trigger] key_lt(y, z) ==> key_lt(x, z),
        forall|x: BlockKey, y: BlockKey| x != y ==> #[trigger] key_lt(x, y) || #[trigger] key_lt(y, x),
{
    assert forall|x: BlockKey| !#[trigger] key_lt(x, x) by {
        lemma_bytes_lt_irreflexive(encode_utf8(x.0));
    }
    assert forall|x: BlockKey, y: BlockKey, z: BlockKey|
        #[trigger] key_lt(x, y) && #[trigger] key_lt(y, z) implies key_lt(x, z) by {
        let (ex, ey, ez) = (encode_utf8(x.0), encode_utf8(y.0), encode_utf8(z.0));
        if bytes_lt(ex, ey) && bytes_lt(ey, ez) {
            lemma_bytes_lt_transitive(ex, ey, ez);
        }
    }
    assert forall|x: BlockKey, y: BlockKey| x != y implies #[trigger] key_lt(x, y) || #[trigger] key_lt(
        y,
        x,
    ) by {
        lemma_bytes_lt_total(encode_utf8(x.0), encode_utf8(y.0));
        encode_utf8_decode_utf8(x.0);
        encode_utf8_decode_utf8(y.0);
    }
}

/// In a sorted sequence each block is the table's entry for its identity,
/// and the table holds no other identity.
pub(crate) proof fn lemma_table_sorted(s: Seq<BlockModel>)
    requires
        sorted_by_key(s),
    ensures
        forall|i: int|
            #![trigger s[i]]
            0 <= i < s.len() ==> block_table(s).contains_key(key_of(s[i])) && block_table(s)[key_of(
                s[i],
            )] == s[i],
        forall|k: BlockKey|
            #[trigger] block_table(s).contains_key(k) ==> exists|i: int|
                0 <= i < s.len() && key_of(s[i]) == k,
    decreases s.len(),
{
    lemma_key_order();
    if s.len() > 0 {
        let t = s.drop_last();
        assert(sorted_by_key(t));
        lemma_table_sorted(t);
        assert forall|i: int| #![trigger s[i]] 0 <= i < s.len() implies block_table(s).contains_key(
            key_of(s[i]),
        ) && block_table(s)[key_of(s[i])] == s[i] by {
            if i < s.len() - 1 {
                assert(key_lt(key_of(s[i]), key_of(s[s.len() - 1])));
                assert(t[i] == s[i]);
            }
        }
        assert forall|k: BlockKey| #[trigger] block_table(s).contains_key(k) implies exists|i: int|
            0 <= i < s.len() && key_of(s[i]) == k by {
            if k != key_of(s.last()) {
                assert(block_table(t).contains_key(k));
                let i = choose|i: int| 0 <= i < t.len() && key_of(t[i]) == k;
                assert(s[i] == t[i]);
            } else {
                assert(key_of(s[s.len() - 1]) == k);
            }
        }
    }
}

/// Replacing a block by one with the same identity replaces the table entry.
proof fn lemma_table_update(s: Seq<BlockModel>, idx: int, nb: BlockModel)
    requires
        sorted_by_key(s),
        0 <= idx < s.len(),
        key_of(nb) == key_of(s[idx]),
    ensures
        sorted_by_key(s.update(idx, nb)),
        block_table(s.update(idx, nb)) == block_table(s).insert(key_of(nb), nb),
{
    lemma_key_order();
    let u = s.update(idx, nb);
    assert forall|i: int, j: int| 0 <= i < j < u.len() implies key_lt(key_of(u[i]), key_of(u[j])) by {
        assert(key_lt(key_of(s[i]), key_of(s[j])));
    }
    lemma_table_sorted(s);
    lemma_table_sorted(u);
    let l = block_table(u);
    let r = block_table(s).insert(key_of(nb), nb);
    assert forall|k: BlockKey| l.contains_key(k) <==> r.contains_key(k) by {
        if l.contains_key(k) {
            let i = choose|i: int| 0 <= i < u.len() && key_of(u[i]) == k;
            assert(s[i] == u[i] || i == idx);
        }
        if r.contains_key(k) && k != key_of(nb) {
            let i = choose|i: int| 0 <= i < s.len() && key_of(s[i]) == k;
            assert(u[i] == s[i]);
        }
        if k == key_of(nb) {
            assert(u[idx] == nb);
        }
    }
    assert forall|k: BlockKey| l.contains_key(k) implies l[k] == r[k] by {
        let i = choose|i: int| 0 <= i < u.len() && key_of(u[i]) == k;
        if i != idx {
            assert(u[i] == s[i]);
            assert(key_lt(key_of(s[i]), key_of(s[idx])) || key_lt(key_of(s[idx]), key_of(s[i])));
        }
    }
    assert(l =~= r);
}

/// Inserting a block at its place in the order adds its table entry.
proof fn lemma_table_insert(s: Seq<BlockModel>, idx: int, b: BlockModel)
    requires
        sorted_by_key(s),
        0 <= idx <= s.len(),
        forall|j: int| 0 <= j < idx ==> key_lt(key_of(#[trigger] s[j]), key_of(b)),
        idx < s.len() ==> key_lt(key_of(b), key_of(s[idx])),
    ensures
        sorted_by_key(s.insert(idx, b)),
        block_table(s.insert(idx, b)) == block_table(s).insert(key_of(b), b),
{
    lemma_key_order();
    let u = s.insert(idx, b);
    assert forall|i: int, j: int| 0 <= i < j < u.len() implies key_lt(key_of(u[i]), key_of(u[j])) by {
        if j < idx {
            assert(key_lt(key_of(s[i]), key_of(s[j])));
        } else if j == idx {
        } else if i < idx {
            assert(key_lt(key_of(s[i]), key_of(b)));
            if j - 1 > idx {
                assert(key_lt(key_of(s[idx]), key_of(s[j - 1])));
            }
        } else if i == idx {
            if j - 1 > idx {
                assert(key_lt(key_of(s[idx]), key_of(s[j - 1])));
            }
        } else {
            assert(key_lt(key_of(s[i - 1]), key_of(s[j - 1])));
        }
    }
    lemma_table_sorted(s);
    lemma_table_sorted(u);
    let l = block_table(u);
    let r = block_table(s).insert(key_of(b), b);
    assert forall|k: BlockKey| l.contains_key(k) <==> r.contains_key(k) by {
        if l.contains_key(k) {
            let i = choose|i: int| 0 <= i < u.len() && key_of(u[i]) == k;
            if i < idx {
                assert(u[i] == s[i]);
            } else if i > idx {
                assert(u[i] == s[i - 1]);
            }
        }
        if r.contains_key(k) && k != key_of(b) {
            let i = choose|i: int| 0 <= i < s.len() && key_of(s[i]) == k;
            if i < idx {
                assert(u[i] == s[i]);
            } else {
                assert(u[i + 1] == s[i]);
            }
        }
        if k == key_of(b) {
            assert(u[idx] == b);
        }
    }
    assert forall|k: BlockKey| l.contains_key(k) implies l[k] == r[k] by {
        let i = choose|i: int| 0 <= i < u.len() && key_of(u[i]) == k;
        if i < idx {
            assert(u[i] == s[i]);
        } else if i > idx {
            assert(u[i] == s[i - 1]);
            if i - 1 > idx {
                assert(key_lt(key_of(s[idx]), key_of(s[i - 1])));
            }
        }
    }
    assert(l =~= r);
}

/// Whether `a` comes before `b` in lexicographic byte order.
fn bytes_less(a: &[u8], b: &[u8]) -> (r: bool)
    ensures
        r == bytes_lt(a@, b@),
{
    let mut i: usize = 0;
    assert(a@.subrange(0, a@.len() as int) =~= a@);
    assert(b@.subrange(0, b@.len() as int) =~= b@);
    while i < a.len() && i < b.len() && a[i] == b[i]
        invariant
            i <= a@.len(),
            i <= b@.len(),
            bytes_lt(a@, b@) == bytes_lt(
                a@.subrange(i as int, a@.len() as int),
                b@.subrange(i as int, b@.len() as int),
            ),
        decreases a@.len() - i,
    {
        assert(a@.subrange(i as int, a@.len() as int).drop_first() =~= a@.subrange(
            i + 1,
            a@.len() as int,
        ));
        assert(b@.subrange(i as int, b@.len() as int).drop_first() =~= b@.subrange(
            i + 1,
            b@.len() as int,
        ));
        i += 1;
    }
    if i == a.len() {
        i < b.len()
    } else if i == b.len() {
        false
    } else {
        a[i] < b[i]
    }
}

impl GoProfileBlock {
    /// Whether the identity of `self` comes before that of `other`.
    fn key_less(&self, other: &GoProfileBlock) -> (r: bool)
        ensures
            r == key_lt(key_of(self@), key_of(other@)),
    {
        let fa = self.filename.as_str().as_bytes();
        let fb = other.filename.as_str().as_bytes();
        if bytes_less(fa, fb) {
            return true;
        }
        if bytes_less(fb, fa) {
            return false;
        }
        proof {
            lemma_bytes_lt_total(fa@, fb@);
            encode_utf8_decode_utf8(self@.filename);
            encode_utf8_decode_utf8(other@.filename);
        }
        self.start_line < other.start_line || (self.start_line == other.start_line && (
        self.start_col < other.start_col || (self.start_col == other.start_col && (self.end_line
            < other.end_line || (self.end_line == other.end_line && self.end_col
            < other.end_col)))))
    }

    /// Whether `self` and `other` have one identity.
    fn same_key(&self, other: &GoProfileBlock) -> (r: bool)
        ensures
            r == (key_of(self@) == key_of(other@)),
    {
        self.filename == other.filename && self.start_line == other.start_line && self.start_col
            == other.start_col && self.end_line == other.end_line && self.end_col == other.end_col
    }

    /// A copy of this block.
    fn duplicate(&self) -> (r: GoProfileBlock)
        ensures
            r@ == self@,
    {
        GoProfileBlock {
            filename: self.filename.clone(),
            start_line: self.start_line,
            start_col: self.start_col,
            end_line: self.end_line,
            end_col: self.end_col,
            number_of_statements: self.number_of_statements,
            count: self.count,
        }
    }
}

/// Where the identity of `b` stands in the sorted `entries`: whether it is
/// there, and the index of the first entry that does not come before it,
/// found by binary search.
fn locate(entries: &Vec<GoProfileBlock>, b: &GoProfileBlock) -> (r: (bool, usize))
    requires
        sorted_by_key(blocks_view(entries@)),
    ensures
        r.1 <= entries@.len(),
        forall|j: int|
            0 <= j < r.1 ==> key_lt(key_of(#[trigger] blocks_view(entries@)[j]), key_of(b@)),
        r.0 ==> r.1 < entries@.len() && key_of(blocks_view(entries@)[r.1 as int]) == key_of(b@),
        !r.0 ==> r.1 == entries@.len() || key_lt(key_of(b@), key_of(blocks_view(entries@)[r.1 as int])),
{
    let ghost v = blocks_view(entries@);
    proof {
        lemma_key_order();
    }
    let mut lo: usize = 0;
    let mut hi: usize = entries.len();
    while lo < hi
        invariant
            lo <= hi <= entries@.len(),
            v == blocks_view(entries@),
            sorted_by_key(v),
            forall|j: int| 0 <= j < lo ==> key_lt(key_of(#[trigger] v[j]), key_of(b@)),
            forall|j: int| hi <= j < v.len() ==> !key_lt(key_of(#[trigger] v[j]), key_of(b@)),
        decreases hi - lo,
    {
        let mid = lo + (hi - lo) / 2;
        proof {
            lemma_key_order();
        }
        assert(v[mid as int] == entries@[mid as int]@);
        if entries[mid].key_less(b) {
            assert forall|j: int| 0 <= j < mid + 1 implies key_lt(key_of(#[trigger] v[j]), key_of(b@)) by {
                if j < mid {
                    assert(key_lt(key_of(v[j]), key_of(v[mid as int])));
                }
            }
            lo = mid + 1;
        } else {
            assert forall|j: int| mid <= j < v.len() implies !key_lt(key_of(#[trigger] v[j]), key_of(b@)) by {
                if j > mid {
                    assert(key_lt(key_of(v[mid as int]), key_of(v[j])));
                }
            }
            hi = mid;
        }
    }
    let i = lo;
    if i < entries.len() && entries[i].same_key(b) {
        (true, i)
    } else {
        proof {
            lemma_key_order();
        }
        (false, i)
    }
}

/// `x` and `y` combined as `combine_counts` says.
fn combine(mode: GoProfileMode, x: u32, y: u32) -> (r: u32)
    ensures
        r == combine_counts(mode, x, y),
{
    match mode {
        GoProfileMode::SetMode => x | y,
        _ => if x > u32::MAX - y {
            u32::MAX
        } else {
            x + y
        },
    }
}

impl GoReport {
    /// Merges two profiles. The mode is the first of the two that is not
    /// `set` (else `set`). The blocks of `self` are taken by identity; each
    /// block of `other` with a non-zero hit count is then folded in: a new
    /// identity is added, a known one must have the same statement count
    /// (else `InconsistentNumStmt`) and has its hit count combined, by `or`
    /// in `set` mode and by saturating addition otherwise. The result is
    /// sorted by identity.
    pub fn try_merge(self, other: Self) -> (r: Result<Self, Error>)
        ensures
            match r {
                Ok(m) => is_merge_of(m@, self@, other@),
                Err(e) => {
                    &&& merged_table(self@, other@) is Err
                    &&& e@ == ErrorModel::Go(merged_table(self@, other@)->Err_0)
                },
            },
    {
        let mode = if self.mode != GoProfileMode::SetMode {
            self.mode
        } else {
            other.mode
        };
        let ghost a = self@.blocks;
        let ghost bs = other@.blocks;
        let mut entries: Vec<GoProfileBlock> = Vec::new();
        let mut i: usize = 0;
        assert(blocks_view(entries@) =~= seq![]);
        assert(a.subrange(0, 0) =~= seq![]);
        while i < self.blocks.len()
            invariant
                a == self@.blocks,
                i <= a.len(),
                sorted_by_key(blocks_view(entries@)),
                block_table(blocks_view(entries@)) == block_table(a.subrange(0, i as int)),
            decreases a.len() - i,
        {
            let b = &self.blocks[i];
            let ghost v = blocks_view(entries@);
            let (found, idx) = locate(&entries, b);
            let nb = b.duplicate();
            if found {
                entries[idx] = nb;
                proof {
                    lemma_table_update(v, idx as int, nb@);
                    assert(blocks_view(entries@) =~= v.update(idx as int, nb@));
                }
            } else {
                entries.insert(idx, nb);
                proof {
                    lemma_table_insert(v, idx as int, nb@);
                    assert(blocks_view(entries@) =~= v.insert(idx as int, nb@));
                }
            }
            assert(a.subrange(0, i + 1).drop_last() =~= a.subrange(0, i as int));
            i += 1;
        }
        assert(a.subrange(0, i as int) =~= a);
        let ghost table_a = block_table(a);
        let mut i: usize = 0;
        assert(bs.subrange(0, 0) =~= seq![]);
        while i < other.blocks.len()
            invariant
                bs == other@.blocks,
                mode == merged_mode(self@.mode, other@.mode),
                table_a == block_table(self@.blocks),
                i <= bs.len(),
                sorted_by_key(blocks_view(entries@)),
                fold_blocks(table_a, bs.subrange(0, i as int), mode) == Ok::<_, GoErrorModel>(
                    block_table(blocks_view(entries@)),
                ),
            decreases bs.len() - i,
        {
            let b = &other.blocks[i];
            let ghost v = blocks_view(entries@);
            let ghost m = block_table(v);
            assert(bs.subrange(0, i + 1).drop_last() =~= bs.subrange(0, i as int));
            if b.count != 0 {
                let (found, idx) = locate(&entries, b);
                proof {
                    lemma_table_sorted(v);
                    lemma_key_order();
                }
                if found {
                    let existing = &entries[idx];
                    if existing.number_of_statements != b.number_of_statements {
                        proof {
                            lemma_fold_error_stays(table_a, bs, (i + 1) as int, mode);
                        }
                        return Err(
                            Error::Go(
                                GoCoverageError::InconsistentNumStmt {
                                    from: b.number_of_statements,
                                    to: existing.number_of_statements,
                                },
                            ),
                        );
                    }
                    let mut nb = existing.duplicate();
                    nb.count = combine(mode, existing.count, b.count);
                    entries[idx] = nb;
                    proof {
                        lemma_table_update(v, idx as int, nb@);
                        assert(blocks_view(entries@) =~= v.update(idx as int, nb@));
                        assert(nb@ == BlockModel {
                            count: combine_counts(mode, m[key_of(b@)].count, b@.count),
                            ..m[key_of(b@)]
                        });
                    }
                } else {
                    entries.insert(idx, b.duplicate());
                    proof {
                        lemma_table_insert(v, idx as int, b@);
                        assert(blocks_view(entries@) =~= v.insert(idx as int, b@));
                        if m.contains_key(key_of(b@)) {
                            let j = choose|j: int| 0 <= j < v.len() && key_of(v[j]) == key_of(b@);
                            if j < idx {
                                assert(key_lt(key_of(v[j]), key_of(b@)));
                            } else if j > idx {
                                assert(key_lt(key_of(v[idx as int]), key_of(v[j])));
                            }
                            assert(false);
                        }
                    }
                }
            }
            i += 1;
        }
        assert(bs.subrange(0, i as int) =~= bs);
        Ok(GoReport { mode, blocks: entries })
    }
}

} // verus!

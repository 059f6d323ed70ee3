use vstd::prelude::*;

use super::error::GoErrorModel;
use super::merge::{
    block_table, fold_block, fold_blocks, is_merge_of, key_lt, key_of, lemma_fold_error_stays,
    lemma_key_order, lemma_table_sorted, merged_mode, merged_table, sorted_by_key, BlockKey,
};
use super::{BlockModel, GoProfileMode, ReportModel};

verus! {

/// No two blocks of `bs` have one identity.
pub open spec fn unique_keys(bs: Seq<BlockModel>) -> bool {
    forall|i: int, j: int| 0 <= i < j < bs.len() ==> key_of(bs[i]) != key_of(bs[j])
}

/// `a` and `b` cover the same identities, with the same statement counts.
pub open spec fn same_blocks(a: ReportModel, b: ReportModel) -> bool {
    let ta = block_table(a.blocks);
    let tb = block_table(b.blocks);
    &&& ta.dom() == tb.dom()
    &&& forall|k: BlockKey| ta.contains_key(k) ==> #[trigger] ta[k].number_of_statements
        == tb[k].number_of_statements
}

/// The table `m` with the hit counts of `t` or-ed in, where `t` has them.
pub open spec fn or_counts(m: Map<BlockKey, BlockModel>, t: Map<BlockKey, BlockModel>) -> Map<
    BlockKey,
    BlockModel,
> {
    Map::new(
        |k: BlockKey| m.contains_key(k),
        |k: BlockKey|
            if t.contains_key(k) {
                BlockModel { count: m[k].count | t[k].count, ..m[k] }
            } else {
                m[k]
            },
    )
}

/// Every entry of a table is stored under its own identity.
proof fn lemma_table_keys(s: Seq<BlockModel>)
    ensures
        forall|k: BlockKey| #[trigger] block_table(s).contains_key(k) ==> key_of(block_table(s)[k]) == k,
    decreases s.len(),
{
    if s.len() > 0 {
        let t = s.drop_last();
        lemma_table_keys(t);
        assert forall|k: BlockKey| #[trigger] block_table(s).contains_key(k) implies key_of(
            block_table(s)[k],
        ) == k by {
            if k != key_of(s.last()) {
                assert(block_table(t).contains_key(k));
            }
        }
    }
}

/// With unique identities each block is the table's entry for its identity,
/// and the table holds no other identity.
proof fn lemma_table_unique(s: Seq<BlockModel>)
    requires
        unique_keys(s),
    ensures
        forall|i: int|
            #![trigger s[i]]
            0 <= i < s.len() ==> block_table(s).contains_key(key_of(s[i])) && block_table(s)[key_of(
                s[i],
            )] == s[i],
        forall|k: BlockKey|
            #[trigger] block_table(s).contains_key(k) ==> exists|i: int|
                0 <= i < s.len() && key_of(s[i]) == k,
    decreases s.len(),
{
    if s.len() > 0 {
        let t = s.drop_last();
        assert(unique_keys(t));
        lemma_table_unique(t);
        assert forall|i: int| #![trigger s[i]] 0 <= i < s.len() implies block_table(s).contains_key(
            key_of(s[i]),
        ) && block_table(s)[key_of(s[i])] == s[i] by {
            if i < s.len() - 1 {
                assert(t[i] == s[i]);
            }
        }
        assert forall|k: BlockKey| #[trigger] block_table(s).contains_key(k) implies exists|i: int|
            0 <= i < s.len() && key_of(s[i]) == k by {
            if k != key_of(s.last()) {
                assert(block_table(t).contains_key(k));
                let i = choose|i: int| 0 <= i < t.len() && key_of(t[i]) == k;
                assert(s[i] == t[i]);
            } else {
                assert(key_of(s[s.len() - 1]) == k);
            }
        }
    }
}

/// A sorted sequence has unique identities.
proof fn lemma_sorted_unique(s: Seq<BlockModel>)
    requires
        sorted_by_key(s),
    ensures
        unique_keys(s),
{
    lemma_key_order();
    assert forall|i: int, j: int| 0 <= i < j < s.len() implies key_of(s[i]) != key_of(s[j]) by {
        assert(key_lt(key_of(s[i]), key_of(s[j])));
    }
}

/// In `set` mode, folding blocks with unique identities that `m` already
/// holds, with its statement counts, ors their hit counts into `m`.
proof fn lemma_fold_set(m: Map<BlockKey, BlockModel>, bs: Seq<BlockModel>)
    requires
        unique_keys(bs),
        forall|k: BlockKey| #[trigger] m.contains_key(k) ==> key_of(m[k]) == k,
        forall|i: int|
            #![trigger bs[i]]
            0 <= i < bs.len() ==> m.contains_key(key_of(bs[i])) && m[key_of(
                bs[i],
            )].number_of_statements == bs[i].number_of_statements,
    ensures
        fold_blocks(m, bs, GoProfileMode::SetMode) == Ok::<_, GoErrorModel>(
            or_counts(m, block_table(bs)),
        ),
    decreases bs.len(),
{
    if bs.len() == 0 {
        assert(or_counts(m, block_table(bs)) =~= m);
    } else {
        let t = bs.drop_last();
        let b = bs.last();
        assert(unique_keys(t));
        assert forall|i: int| #![trigger t[i]] 0 <= i < t.len() implies m.contains_key(key_of(t[i]))
            && m[key_of(t[i])].number_of_statements == t[i].number_of_statements by {
            assert(t[i] == bs[i]);
        }
        lemma_fold_set(m, t);
        lemma_table_unique(t);
        let m1 = or_counts(m, block_table(t));
        assert(bs[bs.len() - 1] == b);
        assert(!block_table(t).contains_key(key_of(b))) by {
            if block_table(t).contains_key(key_of(b)) {
                let i = choose|i: int| 0 <= i < t.len() && key_of(t[i]) == key_of(b);
                assert(t[i] == bs[i]);
            }
        }
        let target = or_counts(m, block_table(bs));
        if b.count == 0 {
            let c = m[key_of(b)].count;
            assert(c | 0u32 == c) by (bit_vector);
            assert(target =~= m1);
        } else {
            assert(fold_block(m1, b, GoProfileMode::SetMode) == Ok::<_, GoErrorModel>(
                m1.insert(key_of(b), BlockModel { count: m1[key_of(b)].count | b.count, ..m1[key_of(b)] }),
            ));
            assert(target =~= m1.insert(
                key_of(b),
                BlockModel { count: m1[key_of(b)].count | b.count, ..m1[key_of(b)] },
            ));
        }
    }
}

/// The `or_counts` form of a `set`-mode merge of reports that cover the same
/// identities with the same statement counts.
proof fn lemma_merged_set(a: ReportModel, b: ReportModel)
    requires
        a.mode == GoProfileMode::SetMode,
        b.mode == GoProfileMode::SetMode,
        unique_keys(b.blocks),
        same_blocks(a, b),
    ensures
        merged_table(a, b) == Ok::<_, GoErrorModel>(
            or_counts(block_table(a.blocks), block_table(b.blocks)),
        ),
{
    let ta = block_table(a.blocks);
    let tb = block_table(b.blocks);
    lemma_table_keys(a.blocks);
    lemma_table_unique(b.blocks);
    assert forall|i: int| #![trigger b.blocks[i]] 0 <= i < b.blocks.len() implies ta.contains_key(
        key_of(b.blocks[i]),
    ) && ta[key_of(b.blocks[i])].number_of_statements == b.blocks[i].number_of_statements by {
        assert(tb.contains_key(key_of(b.blocks[i])));
        assert(ta[key_of(b.blocks[i])].number_of_statements == tb[key_of(
            b.blocks[i],
        )].number_of_statements);
    }
    lemma_fold_set(ta, b.blocks);
}

/// Two sequences sorted by identity with the same table are equal.
proof fn lemma_sorted_table_determines(s: Seq<BlockModel>, t: Seq<BlockModel>)
    requires
        sorted_by_key(s),
        sorted_by_key(t),
        block_table(s) == block_table(t),
    ensures
        s == t,
    decreases s.len(),
{
    lemma_key_order();
    lemma_table_sorted(s);
    lemma_table_sorted(t);
    if s.len() == 0 {
        if t.len() > 0 {
            assert(block_table(t).contains_key(key_of(t[0])));
        }
        assert(s =~= t);
    } else if t.len() == 0 {
        assert(block_table(s).contains_key(key_of(s[0])));
    } else {
        let ls = s.len() - 1;
        let lt = t.len() - 1;
        let ks = key_of(s[ls]);
        let kt = key_of(t[lt]);
        assert(ks == kt) by {
            assert(block_table(t).contains_key(ks));
            let i = choose|i: int| 0 <= i < t.len() && key_of(t[i]) == ks;
            if i < lt {
                assert(key_lt(key_of(t[i]), kt));
            }
            assert(block_table(s).contains_key(kt));
            let i2 = choose|i2: int| 0 <= i2 < s.len() && key_of(s[i2]) == kt;
            if i2 < ls {
                assert(key_lt(key_of(s[i2]), ks));
            }
        }
        assert(s[ls] == t[lt]);
        let s1 = s.drop_last();
        let t1 = t.drop_last();
        assert(sorted_by_key(s1));
        assert(sorted_by_key(t1));
        lemma_table_sorted(s1);
        lemma_table_sorted(t1);
        assert(!block_table(s1).contains_key(ks)) by {
            if block_table(s1).contains_key(ks) {
                let i = choose|i: int| 0 <= i < s1.len() && key_of(s1[i]) == ks;
                assert(key_lt(key_of(s[i]), ks));
            }
        }
        assert(!block_table(t1).contains_key(kt)) by {
            if block_table(t1).contains_key(kt) {
                let i = choose|i: int| 0 <= i < t1.len() && key_of(t1[i]) == kt;
                assert(key_lt(key_of(t[i]), kt));
            }
        }
        assert(block_table(s1) =~= block_table(s).remove(ks));
        assert(block_table(t1) =~= block_table(t).remove(kt));
        lemma_sorted_table_determines(s1, t1);
        assert(s =~= s1.push(s[ls]));
        assert(t =~= t1.push(t[lt]));
    }
}

/// Each block of a merge result is the table's entry for its identity.
proof fn lemma_result_blocks(r: ReportModel, m: Map<BlockKey, BlockModel>)
    requires
        sorted_by_key(r.blocks),
        block_table(r.blocks) == m,
    ensures
        forall|i: int| 0 <= i < r.blocks.len() ==> #[trigger] r.blocks[i] == m[key_of(r.blocks[i])],
        m.dom() == block_table(r.blocks).dom(),
{
    lemma_table_sorted(r.blocks);
}

/// Merging a block into a report that holds a block of the same identity
/// with a different statement count fails with `InconsistentNumStmt`, in
/// every mode, where the incoming block has hits (one without hits is
/// skipped).
pub proof fn law_inconsistent_statements_fail(
    ma: GoProfileMode,
    mb: GoProfileMode,
    x: BlockModel,
    y: BlockModel,
)
    requires
        key_of(x) == key_of(y),
        x.number_of_statements != y.number_of_statements,
        y.count != 0,
    ensures
        merged_table(
            ReportModel { mode: ma, blocks: seq![x] },
            ReportModel { mode: mb, blocks: seq![y] },
        ) == Err::<Map<BlockKey, BlockModel>, _>(
            GoErrorModel::InconsistentNumStmt {
                from: y.number_of_statements,
                to: x.number_of_statements,
            },
        ),
{
    let ex: Seq<BlockModel> = seq![];
    assert(seq![x].drop_last() =~= ex);
    assert(seq![y].drop_last() =~= ex);
    let m = block_table(seq![x]);
    assert(block_table(ex) == Map::<BlockKey, BlockModel>::empty());
    assert(seq![x].last() == x);
    assert(m == Map::<BlockKey, BlockModel>::empty().insert(key_of(x), x));
    let mode = merged_mode(ma, mb);
    assert(fold_blocks(m, ex, mode) == Ok::<_, GoErrorModel>(m));
    assert(fold_blocks(m, seq![y], mode) == fold_block(m, y, mode));
}

/// In `set` mode, for reports without repeated identities that cover the
/// same identities with the same statement counts, merging succeeds, and the
/// merge of `a` and `b` equals the merge of `b` and `a`: it has the blocks of
/// `a` with, as hit count, the `or` of the hit counts of `a` and `b`.
pub proof fn law_set_merge_commutative(a: ReportModel, b: ReportModel, ab: ReportModel, ba: ReportModel)
    requires
        a.mode == GoProfileMode::SetMode,
        b.mode == GoProfileMode::SetMode,
        unique_keys(a.blocks),
        unique_keys(b.blocks),
        same_blocks(a, b),
        is_merge_of(ab, a, b),
        is_merge_of(ba, b, a),
    ensures
        merged_table(a, b) is Ok,
        merged_table(b, a) is Ok,
        ab == ba,
        block_table(ab.blocks).dom() == block_table(a.blocks).dom(),
        forall|i: int|
            #![trigger ab.blocks[i]]
            0 <= i < ab.blocks.len() ==> {
                let k = key_of(ab.blocks[i]);
                ab.blocks[i] == BlockModel {
                    count: block_table(a.blocks)[k].count | block_table(b.blocks)[k].count,
                    ..block_table(a.blocks)[k]
                }
            },
{
    let ta = block_table(a.blocks);
    let tb = block_table(b.blocks);
    lemma_merged_set(a, b);
    assert(same_blocks(b, a));
    lemma_merged_set(b, a);
    lemma_table_keys(a.blocks);
    lemma_table_keys(b.blocks);
    let l = or_counts(ta, tb);
    let r = or_counts(tb, ta);
    assert forall|k: BlockKey| l.contains_key(k) implies l[k] == r[k] by {
        let x = ta[k].count;
        let y = tb[k].count;
        assert(x | y == y | x) by (bit_vector);
        assert(ta[k].number_of_statements == tb[k].number_of_statements);
    }
    assert(l =~= r);
    lemma_sorted_table_determines(ab.blocks, ba.blocks);
    lemma_result_blocks(ab, l);
    lemma_table_sorted(ab.blocks);
    assert(l.dom() =~= ta.dom());
    assert forall|i: int| #![trigger ab.blocks[i]] 0 <= i < ab.blocks.len() implies ab.blocks[i]
        == BlockModel { count: ta[key_of(ab.blocks[i])].count | tb[key_of(ab.blocks[i])].count, ..ta[key_of(ab.blocks[i])] } by {
        let k = key_of(ab.blocks[i]);
        assert(block_table(ab.blocks).contains_key(k));
        assert(ta.contains_key(k));
        assert(tb.contains_key(k));
    }
}

/// In `set` mode, for reports without repeated identities that cover the
/// same identities with the same statement counts, merging the merge of `a`
/// and `b` with `c` succeeds and equals merging `a` with the merge of `b` and
/// `c`: it has the blocks of `a` with, as hit count, the `or` of the hit
/// counts of `a`, `b` and `c`.
pub proof fn law_set_merge_associative(
    a: ReportModel,
    b: ReportModel,
    c: ReportModel,
    ab: ReportModel,
    bc: ReportModel,
    ab_c: ReportModel,
    a_bc: ReportModel,
)
    requires
        a.mode == GoProfileMode::SetMode,
        b.mode == GoProfileMode::SetMode,
        c.mode == GoProfileMode::SetMode,
        unique_keys(a.blocks),
        unique_keys(b.blocks),
        unique_keys(c.blocks),
        same_blocks(a, b),
        same_blocks(b, c),
        is_merge_of(ab, a, b),
        is_merge_of(bc, b, c),
        is_merge_of(ab_c, ab, c),
        is_merge_of(a_bc, a, bc),
    ensures
        merged_table(ab, c) is Ok,
        merged_table(a, bc) is Ok,
        ab_c == a_bc,
        block_table(ab_c.blocks).dom() == block_table(a.blocks).dom(),
        forall|i: int|
            #![trigger ab_c.blocks[i]]
            0 <= i < ab_c.blocks.len() ==> {
                let k = key_of(ab_c.blocks[i]);
                ab_c.blocks[i] == BlockModel {
                    count: block_table(a.blocks)[k].count | block_table(b.blocks)[k].count
                        | block_table(c.blocks)[k].count,
                    ..block_table(a.blocks)[k]
                }
            },
{
    let ta = block_table(a.blocks);
    let tb = block_table(b.blocks);
    let tc = block_table(c.blocks);
    lemma_merged_set(a, b);
    lemma_merged_set(b, c);
    lemma_table_keys(a.blocks);
    lemma_table_keys(b.blocks);
    lemma_table_keys(c.blocks);
    lemma_sorted_unique(ab.blocks);
    lemma_sorted_unique(bc.blocks);
    let tab = or_counts(ta, tb);
    let tbc = or_counts(tb, tc);
    assert(block_table(ab.blocks) == tab);
    assert(block_table(bc.blocks) == tbc);
    assert(tab.dom() =~= ta.dom());
    assert(tbc.dom() =~= tb.dom());
    assert(same_blocks(ab, c)) by {
        assert forall|k: BlockKey| tab.contains_key(k) implies #[trigger] tab[k].number_of_statements
            == tc[k].number_of_statements by {
            assert(ta[k].number_of_statements == tb[k].number_of_statements);
            assert(tb[k].number_of_statements == tc[k].number_of_statements);
        }
    }
    assert(same_blocks(a, bc)) by {
        assert forall|k: BlockKey| ta.contains_key(k) implies #[trigger] ta[k].number_of_statements
            == tbc[k].number_of_statements by {
            assert(ta[k].number_of_statements == tb[k].number_of_statements);
        }
    }
    lemma_merged_set(ab, c);
    lemma_merged_set(a, bc);
    let l = or_counts(tab, tc);
    let r = or_counts(ta, tbc);
    assert forall|k: BlockKey| l.contains_key(k) implies l[k] == r[k] by {
        let x = ta[k].count;
        let y = tb[k].count;
        let z = tc[k].count;
        assert((x | y) | z == x | (y | z)) by (bit_vector);
    }
    assert(l =~= r);
    lemma_sorted_table_determines(ab_c.blocks, a_bc.blocks);
    lemma_result_blocks(ab_c, l);
    lemma_table_sorted(ab_c.blocks);
    assert(l.dom() =~= ta.dom());
    assert forall|i: int| #![trigger ab_c.blocks[i]] 0 <= i < ab_c.blocks.len() implies ab_c.blocks[i]
        == BlockModel {
            count: ta[key_of(ab_c.blocks[i])].count | tb[key_of(ab_c.blocks[i])].count | tc[key_of(ab_c.blocks[i])].count,
            ..ta[key_of(ab_c.blocks[i])]
        } by {
        let k = key_of(ab_c.blocks[i]);
        assert(block_table(ab_c.blocks).contains_key(k));
        assert(ta.contains_key(k));
        assert(tb.contains_key(k));
        assert(tc.contains_key(k));
    }
}

/// Folding keeps every identity of the table, with its statement count.
proof fn lemma_fold_keeps_statements(
    m: Map<BlockKey, BlockModel>,
    bs: Seq<BlockModel>,
    mode: GoProfileMode,
    k: BlockKey,
)
    requires
        m.contains_key(k),
        fold_blocks(m, bs, mode) is Ok,
    ensures
        fold_blocks(m, bs, mode)->Ok_0.contains_key(k),
        fold_blocks(m, bs, mode)->Ok_0[k].number_of_statements == m[k].number_of_statements,
    decreases bs.len(),
{
    if bs.len() > 0 {
        lemma_fold_keeps_statements(m, bs.drop_last(), mode, k);
    }
}

/// Every failure of a fold is a statement-count conflict between two
/// different counts.
proof fn lemma_fold_errors(m: Map<BlockKey, BlockModel>, bs: Seq<BlockModel>, mode: GoProfileMode)
    requires
        fold_blocks(m, bs, mode) is Err,
    ensures
        fold_blocks(m, bs, mode)->Err_0 matches GoErrorModel::InconsistentNumStmt { from, to }
            && from != to,
    decreases bs.len(),
{
    if fold_blocks(m, bs.drop_last(), mode) is Err {
        lemma_fold_errors(m, bs.drop_last(), mode);
    }
}

/// Merging into a report without repeated identities a report that holds,
/// with hits, a block of one of its identities but with another statement
/// count fails, in every mode, with a conflict between two different
/// statement counts (blocks without hits are skipped, so they never
/// conflict).
pub proof fn law_merge_conflict_fails(a: ReportModel, b: ReportModel, i: int, j: int)
    requires
        unique_keys(a.blocks),
        0 <= i < a.blocks.len(),
        0 <= j < b.blocks.len(),
        key_of(a.blocks[i]) == key_of(b.blocks[j]),
        a.blocks[i].number_of_statements != b.blocks[j].number_of_statements,
        b.blocks[j].count != 0,
    ensures
        merged_table(a, b) is Err,
        merged_table(a, b)->Err_0 matches GoErrorModel::InconsistentNumStmt { from, to } && from
            != to,
{
    let mode = merged_mode(a.mode, b.mode);
    let ta = block_table(a.blocks);
    let bs = b.blocks;
    let y = bs[j];
    let k = key_of(y);
    lemma_table_unique(a.blocks);
    assert(ta.contains_key(k) && ta[k] == a.blocks[i]);
    let pre = bs.subrange(0, j);
    assert(bs.subrange(0, j + 1).drop_last() =~= pre);
    assert(bs.subrange(0, j + 1).last() == y);
    if fold_blocks(ta, pre, mode) is Ok {
        lemma_fold_keeps_statements(ta, pre, mode, k);
    } else {
        assert(fold_blocks(ta, bs.subrange(0, j + 1), mode) == fold_blocks(ta, pre, mode));
    }
    assert(fold_blocks(ta, bs.subrange(0, j + 1), mode) is Err);
    lemma_fold_error_stays(ta, bs, j + 1, mode);
    lemma_fold_errors(ta, bs, mode);
}

} // verus!

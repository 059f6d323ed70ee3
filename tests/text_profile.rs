use coverage_formats::go::{GoCoverageError, GoProfileBlock, GoProfileMode, GoReport};
use coverage_formats::Error;

fn block(name: &str, sl: u32, sc: u32, el: u32, ec: u32, n: u32, c: u32) -> GoProfileBlock {
    GoProfileBlock::new(name.to_string(), sl, sc, el, ec, n, c)
}

fn decode(text: &str) -> GoReport {
    GoReport::from_buf_read(text).unwrap()
}

#[test]
fn decode_reads_mode_and_blocks() {
    let r = decode("mode: count\na/b.go:1.2,3.4 5 6\nc.go:7.8,9.10 11 12\n");
    assert_eq!(*r.mode(), GoProfileMode::Count);
    assert_eq!(r.profile_blocks().len(), 2);
    let b = &r.profile_blocks()[0];
    assert_eq!(b.filename(), "a/b.go");
    assert_eq!(
        (b.start_line(), b.start_col(), b.end_line(), b.end_col()),
        (1, 2, 3, 4)
    );
    assert_eq!((b.number_of_statements(), b.count()), (5, 6));
    assert_eq!(r.profile_blocks()[1], block("c.go", 7, 8, 9, 10, 11, 12));
}

#[test]
fn decode_all_mode_names() {
    assert_eq!(*decode("mode: set\n").mode(), GoProfileMode::SetMode);
    assert_eq!(*decode("mode: count\n").mode(), GoProfileMode::Count);
    assert_eq!(*decode("mode: atomic\n").mode(), GoProfileMode::Atomic);
    assert!(decode("mode: set\n").profile_blocks().is_empty());
}

#[test]
fn decode_path_with_colon_uses_last_colon() {
    let r = decode("mode: set\nC:/src/x.go:1.1,2.1 3 1\n");
    assert_eq!(r.profile_blocks()[0].filename(), "C:/src/x.go");
}

#[test]
fn decode_last_line_without_newline_and_trailing_space() {
    let r = decode("mode: set\na.go:1.1,2.1 3 1 \r\nb.go:4.1,5.1 6 0");
    assert_eq!(r.profile_blocks().len(), 2);
    assert_eq!(r.profile_blocks()[0], block("a.go", 1, 1, 2, 1, 3, 1));
    assert_eq!(r.profile_blocks()[1], block("b.go", 4, 1, 5, 1, 6, 0));
}

#[test]
fn decode_rejects_missing_mode_line() {
    assert_eq!(
        GoReport::from_buf_read(""),
        Err(Error::Go(GoCoverageError::InvalidMode))
    );
    assert_eq!(
        GoReport::from_buf_read("mode: set"),
        Err(Error::Go(GoCoverageError::InvalidMode))
    );
    assert_eq!(
        GoReport::from_buf_read("modes: set\n"),
        Err(Error::Go(GoCoverageError::InvalidMode))
    );
}

#[test]
fn decode_rejects_unknown_mode_name() {
    assert_eq!(
        GoReport::from_buf_read("mode: Set\n"),
        Err(Error::Go(GoCoverageError::InvalidModeName("Set".to_string())))
    );
}

#[test]
fn decode_rejects_bad_lines() {
    assert_eq!(
        GoReport::from_buf_read("mode: set\na.go:1.1,2.1 3\n"),
        Err(Error::Go(GoCoverageError::InvalidLine(
            "a.go:1.1,2.1 3".to_string()
        )))
    );
    assert_eq!(
        GoReport::from_buf_read("mode: set\n:1.1,2.1 3 1\n"),
        Err(Error::Go(GoCoverageError::InvalidLine(
            ":1.1,2.1 3 1".to_string()
        )))
    );
    assert_eq!(
        GoReport::from_buf_read("mode: set\na.go:1.1,2.1 3 1\n\n"),
        Err(Error::Go(GoCoverageError::InvalidLine(String::new())))
    );
}

#[test]
fn decode_rejects_number_too_large() {
    assert_eq!(
        GoReport::from_buf_read("mode: count\na.go:1.1,2.1 3 4294967296\n"),
        Err(Error::ParseInt("4294967296".to_string()))
    );
    let r = decode("mode: count\na.go:1.1,2.1 3 4294967295\n");
    assert_eq!(r.profile_blocks()[0].count(), u32::MAX);
}

#[test]
fn encode_writes_every_block() {
    let r = GoReport::new(
        GoProfileMode::Atomic,
        vec![block("z.go", 10, 2, 30, 4, 5, 0), block("a.go", 1, 1, 2, 1, 3, 7)],
    );
    assert_eq!(
        r.encode(),
        "mode: atomic\nz.go:10.2,30.4 5 0\na.go:1.1,2.1 3 7\n"
    );
    assert_eq!(GoProfileMode::Count.as_str(), "count");
}

#[test]
fn decode_then_encode_reproduces_text() {
    for text in [
        "mode: set\n",
        "mode: set\na.go:1.1,2.1 3 1\n",
        "mode: count\nx/y.go:12.3,45.6 7 4294967295\nb:c.go:0.0,0.0 0 0\n",
    ] {
        assert_eq!(decode(text).encode(), text);
    }
}

#[test]
fn merge_set_keeps_value_when_other_has_no_hits() {
    let a = decode("mode: set\na.go:1.1,2.1 3 1\n");
    let b = decode("mode: set\na.go:1.1,2.1 3 0\n");
    assert_eq!(a.try_merge(b).unwrap().encode(), "mode: set\na.go:1.1,2.1 3 1\n");
}

#[test]
fn merge_count_adds_hits() {
    let a = decode("mode: count\nf:1.1,2.1 5 2\n");
    let b = decode("mode: count\nf:1.1,2.1 5 3\n");
    let m = a.try_merge(b).unwrap();
    assert_eq!(m.profile_blocks()[0].count(), 5);
    assert_eq!(m.encode(), "mode: count\nf:1.1,2.1 5 5\n");
}

#[test]
fn merge_count_saturates() {
    let a = decode("mode: count\nf:1.1,2.1 5 4294967290\n");
    let b = decode("mode: atomic\nf:1.1,2.1 5 10\n");
    let m = a.try_merge(b).unwrap();
    assert_eq!(*m.mode(), GoProfileMode::Count);
    assert_eq!(m.profile_blocks()[0].count(), u32::MAX);
}

#[test]
fn merge_set_ors_hits() {
    let a = decode("mode: set\nf:1.1,2.1 5 1\ng:1.1,2.1 1 2\n");
    let b = decode("mode: set\nf:1.1,2.1 5 2\ng:1.1,2.1 1 2\n");
    let m = a.try_merge(b).unwrap();
    assert_eq!(m.encode(), "mode: set\nf:1.1,2.1 5 3\ng:1.1,2.1 1 2\n");
}

#[test]
fn merge_mode_is_first_not_set() {
    let a = decode("mode: set\n");
    let b = decode("mode: atomic\n");
    assert_eq!(*a.try_merge(b).unwrap().mode(), GoProfileMode::Atomic);
    let a = decode("mode: count\n");
    let b = decode("mode: atomic\n");
    assert_eq!(*a.try_merge(b).unwrap().mode(), GoProfileMode::Count);
    let a = decode("mode: set\n");
    let b = decode("mode: set\n");
    assert_eq!(*a.try_merge(b).unwrap().mode(), GoProfileMode::SetMode);
}

#[test]
fn merge_sorts_and_skips_zero_hit_newcomers() {
    let a = decode("mode: count\nz.go:1.1,2.1 1 1\nb.go:5.1,6.1 1 0\nb.go:1.1,2.1 1 1\n");
    let b = decode("mode: count\nn.go:1.1,2.1 1 0\na.go:3.1,4.1 2 9\n");
    let m = a.try_merge(b).unwrap();
    assert_eq!(
        m.encode(),
        "mode: count\na.go:3.1,4.1 2 9\nb.go:1.1,2.1 1 1\nb.go:5.1,6.1 1 0\nz.go:1.1,2.1 1 1\n"
    );
}

#[test]
fn merge_later_duplicate_of_first_report_wins() {
    let a = decode("mode: count\na.go:1.1,2.1 1 4\na.go:1.1,2.1 1 6\n");
    let b = decode("mode: count\n");
    assert_eq!(a.try_merge(b).unwrap().encode(), "mode: count\na.go:1.1,2.1 1 6\n");
}

#[test]
fn merge_inconsistent_statement_counts_fail() {
    for mode in ["set", "count", "atomic"] {
        let a = decode(&format!("mode: {mode}\na.go:1.1,2.1 3 1\n"));
        let b = decode(&format!("mode: {mode}\na.go:1.1,2.1 4 1\n"));
        assert_eq!(
            a.try_merge(b),
            Err(Error::Go(GoCoverageError::InconsistentNumStmt { from: 4, to: 3 }))
        );
    }
}

#[test]
fn merge_set_is_commutative_and_associative_on_hits() {
    let a = "mode: set\nf:1.1,2.1 5 1\ng:3.1,4.1 1 0\n";
    let b = "mode: set\nf:1.1,2.1 5 0\ng:3.1,4.1 1 1\n";
    let c = "mode: set\nf:1.1,2.1 5 2\ng:3.1,4.1 1 0\n";
    let ab = decode(a).try_merge(decode(b)).unwrap();
    let ba = decode(b).try_merge(decode(a)).unwrap();
    assert_eq!(ab, ba);
    let left = ab.try_merge(decode(c)).unwrap();
    let right = decode(a)
        .try_merge(decode(b).try_merge(decode(c)).unwrap())
        .unwrap();
    assert_eq!(left, right);
    assert_eq!(left.encode(), "mode: set\nf:1.1,2.1 5 3\ng:3.1,4.1 1 1\n");
}

#[test]
fn block_accessors_change_fields() {
    let mut b = block("a.go", 1, 2, 3, 4, 5, 6);
    *b.filename_mut() = "b.go".to_string();
    *b.start_line_mut() = 11;
    *b.start_col_mut() = 12;
    *b.end_line_mut() = 13;
    *b.end_col_mut() = 14;
    *b.number_of_statements_mut() = 15;
    *b.count_mut() = 16;
    assert_eq!(b, block("b.go", 11, 12, 13, 14, 15, 16));
    let mut r = GoReport::new(GoProfileMode::SetMode, vec![]);
    *r.mode_mut() = GoProfileMode::Count;
    r.profile_blocks_mut().push(b);
    assert_eq!(r.encode(), "mode: count\nb.go:11.12,13.14 15 16\n");
}

#[test]
fn mode_and_block_parse_from_str() {
    assert_eq!("atomic".parse::<GoProfileMode>(), Ok(GoProfileMode::Atomic));
    assert_eq!(
        "sets".parse::<GoProfileMode>(),
        Err(Error::Go(GoCoverageError::InvalidModeName("sets".to_string())))
    );
    assert_eq!(
        "x.go:1.2,3.4 5 6".parse::<GoProfileBlock>(),
        Ok(block("x.go", 1, 2, 3, 4, 5, 6))
    );
    assert_eq!(
        "C:/src/a.go:10.2,12.3 4 0".parse::<GoProfileBlock>(),
        Ok(block("C:/src/a.go", 10, 2, 12, 3, 4, 0))
    );
    assert_eq!(
        "x.go:1.2,3.4 5 6 ".parse::<GoProfileBlock>(),
        Err(Error::Go(GoCoverageError::InvalidLine(
            "x.go:1.2,3.4 5 6 ".to_string()
        )))
    );
    assert_eq!(
        "x.go:1.2,3.4 5 x".parse::<GoProfileBlock>(),
        Err(Error::Go(GoCoverageError::InvalidLine(
            "x.go:1.2,3.4 5 x".to_string()
        )))
    );
}

#[test]
fn merge_conflict_among_several_blocks_fails() {
    let a = decode("mode: count\na.go:1.1,2.1 3 1\nb.go:1.1,2.1 2 1\n");
    let b = decode("mode: atomic\nc.go:1.1,2.1 1 1\nb.go:1.1,2.1 7 4\na.go:1.1,2.1 3 0\n");
    assert_eq!(
        a.try_merge(b),
        Err(Error::Go(GoCoverageError::InconsistentNumStmt { from: 7, to: 2 }))
    );
}

use coverage_formats::jacoco::{ExecutionData, JacocoError, JacocoReport, SessionInfo};
use coverage_formats::Error;

fn header() -> Vec<u8> {
    vec![0x01, 0xC0, 0xC0, 0x10, 0x07]
}

fn utf8(s: &str) -> Vec<u8> {
    let mut v = (s.len() as u16).to_be_bytes().to_vec();
    v.extend_from_slice(s.as_bytes());
    v
}

fn session_block(id: &str, start: i64, dump: i64) -> Vec<u8> {
    let mut v = vec![0x10];
    v.extend(utf8(id));
    v.extend_from_slice(&start.to_be_bytes());
    v.extend_from_slice(&dump.to_be_bytes());
    v
}

fn data_block(id: i64, name: &str, probes: &[u8]) -> Vec<u8> {
    let mut v = vec![0x11];
    v.extend_from_slice(&id.to_be_bytes());
    v.extend(utf8(name));
    v.extend_from_slice(probes);
    v
}

#[test]
fn var_int_single_and_two_groups() {
    assert_eq!(JacocoReport::read_var_int(&[0x7F], 0), Ok((127, 1)));
    assert_eq!(JacocoReport::read_var_int(&[0x81, 0x01], 0), Ok((129, 2)));
    assert_eq!(JacocoReport::read_var_int(&[0x00, 0x05], 1), Ok((5, 2)));
}

#[test]
fn var_int_five_groups_and_limits() {
    assert_eq!(
        JacocoReport::read_var_int(&[0xFF, 0xFF, 0xFF, 0xFF, 0x07], 0),
        Ok((i32::MAX, 5))
    );
    assert_eq!(
        JacocoReport::read_var_int(&[0xFF, 0xFF, 0xFF, 0xFF, 0x0F], 0),
        Ok((-1, 5))
    );
    assert_eq!(
        JacocoReport::read_var_int(&[0x80, 0x80, 0x80, 0x80, 0x80, 0x01], 0),
        Err(Error::Jacoco(JacocoError::VarIntTooLong))
    );
    assert_eq!(
        JacocoReport::read_var_int(&[0x81], 0),
        Err(Error::UnexpectedEof)
    );
    assert_eq!(JacocoReport::read_var_int(&[], 0), Err(Error::UnexpectedEof));
}

#[test]
fn boolean_array_lsb_first() {
    assert_eq!(
        JacocoReport::read_boolean_array(&[0x03, 0b0000_0101], 0),
        Ok((vec![true, false, true], 2))
    );
    assert_eq!(
        JacocoReport::read_boolean_array(&[0x0A, 0b1000_0001, 0b0000_0010], 0),
        Ok((
            vec![true, false, false, false, false, false, false, true, false, true],
            3
        ))
    );
    assert_eq!(JacocoReport::read_boolean_array(&[0x00], 0), Ok((vec![], 1)));
}

#[test]
fn boolean_array_failures() {
    assert_eq!(
        JacocoReport::read_boolean_array(&[0x09, 0xFF], 0),
        Err(Error::UnexpectedEof)
    );
    assert_eq!(
        JacocoReport::read_boolean_array(&[0xFF, 0xFF, 0xFF, 0xFF, 0x0F], 0),
        Err(Error::FromInt(-1))
    );
}

#[test]
fn header_with_wrong_magic_fails() {
    assert_eq!(
        JacocoReport::from_read(&[0x01, 0xBE, 0xEF, 0x10, 0x07]),
        Err(Error::Jacoco(JacocoError::WrongMagicHeader(0xBEEFu16 as i16)))
    );
}

#[test]
fn header_with_wrong_version_fails() {
    assert_eq!(
        JacocoReport::from_read(&[0x01, 0xC0, 0xC0, 0x12, 0x34]),
        Err(Error::Jacoco(JacocoError::WrongFormatVersion(0x1234)))
    );
}

#[test]
fn first_block_must_be_header() {
    assert_eq!(
        JacocoReport::from_read(&data_block(1, "A", &[0x00])),
        Err(Error::Jacoco(JacocoError::InvalidFile))
    );
}

#[test]
fn unknown_block_type_fails() {
    let mut d = header();
    d.push(0x22);
    assert_eq!(
        JacocoReport::from_read(&d),
        Err(Error::Jacoco(JacocoError::WrongBlockType(0x22)))
    );
}

#[test]
fn empty_and_truncated_streams_decode() {
    let r = JacocoReport::from_read(&[]).unwrap();
    assert!(r.session_infos().is_empty() && r.execution_datas().is_empty());
    let r = JacocoReport::from_read(&header()).unwrap();
    assert!(r.execution_datas().is_empty());
    let mut d = header();
    d.extend(data_block(7, "a/B", &[0x02, 0b11]));
    let full = d.clone();
    d.truncate(d.len() - 1);
    let r = JacocoReport::from_read(&d).unwrap();
    assert!(r.execution_datas().is_empty());
    let r = JacocoReport::from_read(&full).unwrap();
    assert_eq!(
        r.execution_datas(),
        &vec![ExecutionData::new(7, "a/B".to_string(), vec![true, true])]
    );
}

#[test]
fn sessions_and_records_decode_in_order() {
    let mut d = header();
    d.extend(session_block("s1", 947638923004, 947638923999));
    d.extend(data_block(-2, "p/C", &[0x03, 0b010]));
    d.extend(data_block(0x1234, "p/D", &[0x00]));
    let r = JacocoReport::from_read(&d).unwrap();
    assert_eq!(
        r.session_infos(),
        &vec![SessionInfo::new("s1".to_string(), 947638923004, 947638923999)]
    );
    let s = &r.session_infos()[0];
    assert_eq!((s.id().as_str(), s.start_millis(), s.dump_millis()), ("s1", 947638923004, 947638923999));
    assert_eq!(r.execution_datas().len(), 2);
    let x = &r.execution_datas()[0];
    assert_eq!((*x.id(), x.name().as_str()), (-2, "p/C"));
    assert_eq!(x.probes(), &vec![false, true, false]);
    assert_eq!(x.covered_lines(), 1);
    assert_eq!(*r.execution_datas()[1].id(), 0x1234);
}

#[test]
fn session_with_unrepresentable_time_fails() {
    let mut d = header();
    d.extend(session_block("s", 0, i64::MAX));
    assert_eq!(
        JacocoReport::from_read(&d),
        Err(Error::Jacoco(JacocoError::InvalidTimestamp(i64::MAX)))
    );
    let mut d = header();
    d.extend(session_block("s", i64::MIN, 0));
    assert_eq!(
        JacocoReport::from_read(&d),
        Err(Error::Jacoco(JacocoError::InvalidTimestamp(i64::MIN)))
    );
}

#[test]
fn invalid_utf8_name_fails() {
    let mut d = header();
    d.push(0x11);
    d.extend_from_slice(&5i64.to_be_bytes());
    d.extend_from_slice(&[0x00, 0x02, 0xC3, 0x28]);
    d.push(0x00);
    assert_eq!(
        JacocoReport::from_read(&d),
        Err(Error::FromUtf8(vec![0xC3, 0x28]))
    );
}

#[test]
fn utf8_name_decodes() {
    let mut d = header();
    d.extend(data_block(1, "é/ü", &[0x00]));
    let r = JacocoReport::from_read(&d).unwrap();
    assert_eq!(r.execution_datas()[0].name(), "é/ü");
}

#[test]
fn record_merge_ors_probes() {
    let a = ExecutionData::new(3, "A".to_string(), vec![true, false, false]);
    let b = ExecutionData::new(3, "A".to_string(), vec![false, false, true]);
    let m = a.try_merge(b).unwrap();
    assert_eq!(m, ExecutionData::new(3, "A".to_string(), vec![true, false, true]));
    assert_eq!(m.covered_lines(), 2);
}

#[test]
fn record_merge_failures() {
    let a = ExecutionData::new(3, "A".to_string(), vec![true]);
    assert_eq!(
        a.clone()
            .try_merge(ExecutionData::new(4, "A".to_string(), vec![true])),
        Err(JacocoError::IllegalStateDifferentIds(3, 4))
    );
    assert_eq!(
        a.clone()
            .try_merge(ExecutionData::new(3, "B".to_string(), vec![true])),
        Err(JacocoError::IllegalStateDifferentNames(
            "A".to_string(),
            "B".to_string(),
            3
        ))
    );
    assert_eq!(
        a.try_merge(ExecutionData::new(3, "A".to_string(), vec![true, false])),
        Err(JacocoError::IllegalStateIncompatibleProbes("A".to_string(), 3))
    );
}

#[test]
fn report_constructor_and_accessors() {
    let s = SessionInfo::new("x".to_string(), 1, 2);
    let e = ExecutionData::new(1, "C".to_string(), vec![]);
    let mut r = JacocoReport::new(vec![s.clone()], vec![e.clone()]);
    assert_eq!(r.session_infos_mut(), &vec![s]);
    assert_eq!(r.execution_datas_mut(), &vec![e]);
}

#[test]
fn listing_lines() {
    assert_eq!(
        coverage_formats::jacoco::listing::listing_header(),
        "CLASS ID         HITS/PROBES   CLASS NAME"
    );
    let x = ExecutionData::new(0x1234, "p/C".to_string(), vec![true, false, false]);
    assert_eq!(x.listing_line(), "0000000000001234    1 of   3   p/C");
    let y = ExecutionData::new(-1, "D".to_string(), vec![true; 1234]);
    assert_eq!(y.listing_line(), "ffffffffffffffff  1234 of 1234   D");
    let z = ExecutionData::new(i64::MIN, "E".to_string(), vec![]);
    assert_eq!(z.listing_line(), "8000000000000000    0 of   0   E");
    assert_eq!(
        format!("{:016x}  {:3} of {:3}   {}", -1i64, 1234, 1234, "D"),
        y.listing_line()
    );
    let s = SessionInfo::new("run-7".to_string(), 0, 5);
    assert_eq!(
        s.listing_line("Thu Jan 01 00:00:00 UTC 1970", "later"),
        "Session \"run-7\": Thu Jan 01 00:00:00 UTC 1970 - later"
    );
}

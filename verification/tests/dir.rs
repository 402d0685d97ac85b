use octopus_log::xlog_dir::{
    find, parse_i64, parse_name, parse_scn_line, scan_dir_scn_select, scn_of_headers, XLogDir,
};

#[test]
fn parse_i64_cases() {
    assert_eq!(parse_i64(b"0"), Some(0));
    assert_eq!(parse_i64(b"00000000000000000150"), Some(150));
    assert_eq!(parse_i64(b"9223372036854775807"), Some(i64::MAX));
    assert_eq!(parse_i64(b"9223372036854775808"), None);
    assert_eq!(parse_i64(b"-9223372036854775808"), Some(i64::MIN));
    assert_eq!(parse_i64(b"-9223372036854775809"), None);
    assert_eq!(parse_i64(b"-5"), Some(-5));
    assert_eq!(parse_i64(b""), None);
    assert_eq!(parse_i64(b"-"), None);
    assert_eq!(parse_i64(b"12a"), None);
    assert_eq!(parse_i64(b"3000000000000000000"), Some(3000000000000000000));
}

#[test]
fn parse_name_cases() {
    assert_eq!(parse_name(b"00000000000000000002.xlog", b"xlog"), Some(2));
    assert_eq!(parse_name(b"150.xlog", b"xlog"), Some(150));
    assert_eq!(parse_name(b"150.snap", b"xlog"), None);
    assert_eq!(parse_name(b"150.xlog.inprogress", b"xlog"), None);
    assert_eq!(parse_name(b"junk", b"xlog"), None);
    assert_eq!(parse_name(b"x.xlog", b"xlog"), None);
}

#[test]
fn scan_sorts_by_lsn() {
    let dir = XLogDir::new_waldir(b"testdata".to_vec());
    let names: Vec<Vec<u8>> = vec![
        b"150.xlog".to_vec(),
        b"junk.txt".to_vec(),
        b"2.xlog".to_vec(),
        b"70.snap".to_vec(),
        b"0000005.xlog".to_vec(),
    ];
    let entries = dir.scan_dir(&names);
    let lsns: Vec<i64> = entries.iter().map(|e| e.0).collect();
    assert_eq!(lsns, vec![2, 5, 150]);
    assert_eq!(entries[0].1, b"2.xlog".to_vec());
    assert_eq!(entries[2].1, b"150.xlog".to_vec());
}

#[test]
fn scan_keeps_input_order_among_equal_lsns() {
    let dir = XLogDir::new_waldir(b"testdata".to_vec());
    let names: Vec<Vec<u8>> = vec![b"5.xlog".to_vec(), b"05.xlog".to_vec(), b"2.xlog".to_vec()];
    let entries = dir.scan_dir(&names);
    assert_eq!(entries.len(), 3);
    assert_eq!(entries[0].0, 2);
    assert_eq!(entries[1], (5, b"5.xlog".to_vec()));
    assert_eq!(entries[2], (5, b"05.xlog".to_vec()));
}

#[test]
fn test_greatest_lsn() {
    let dir = XLogDir::new_waldir(b"testdata".to_vec());
    let names: Vec<Vec<u8>> = vec![b"2.xlog".to_vec(), b"150.xlog".to_vec(), b"70.xlog".to_vec()];
    assert_eq!(dir.greatest_lsn(&names), Some(150));
    assert_eq!(dir.greatest_lsn(&Vec::new()), None);
}

#[test]
fn find_policy() {
    let list: Vec<(i64, Vec<u8>)> = vec![
        (2, b"2.xlog".to_vec()),
        (70, b"70.xlog".to_vec()),
        (150, b"150.xlog".to_vec()),
    ];
    // inside the range: the entry at or below the key
    assert_eq!(find(&list, 75).unwrap().0, 70);
    assert_eq!(find(&list, 70).unwrap().0, 70);
    assert_eq!(find(&list, 149).unwrap().0, 70);
    // above the range: the last entry
    assert_eq!(find(&list, 10000).unwrap().0, 150);
    // below the range: still the last entry, by the recovery policy
    assert_eq!(find(&list, 1).unwrap().0, 150);
    assert!(find(&[], 5).is_none());
}

#[test]
fn find_with_lsn_clones_entry() {
    let dir = XLogDir::new_waldir(b"testdata".to_vec());
    let names: Vec<Vec<u8>> = vec![b"2.xlog".to_vec(), b"70.xlog".to_vec()];
    let hit = dir.find_with_lsn(&names, 50).unwrap();
    assert_eq!(hit.0, 2);
    assert_eq!(hit.1, b"2.xlog".to_vec());
}

#[test]
fn scn_header_parsing() {
    assert_eq!(parse_scn_line(b"SCN-1: 600\n"), Some((1, 600)));
    assert_eq!(parse_scn_line(b"SCN-12: -3\n"), Some((12, -3)));
    assert_eq!(parse_scn_line(b"SCN-: 600\n"), None);
    assert_eq!(parse_scn_line(b"Created-by: octopus\n"), None);
    assert_eq!(parse_scn_line(b"SCN-1 600\n"), None);
    assert_eq!(parse_scn_line(b"SCN-99999999999: 1\n"), None);

    let headers: Vec<Vec<u8>> = vec![
        b"Created-by: octopus\n".to_vec(),
        b"SCN-2: 41\n".to_vec(),
        b"SCN-1: 600\n".to_vec(),
    ];
    assert_eq!(scn_of_headers(&headers, 1), Some(600));
    assert_eq!(scn_of_headers(&headers, 2), Some(41));
    assert_eq!(scn_of_headers(&headers, 3), None);
}

#[test]
fn scn_scan_falls_back_to_last() {
    let last = Some((150i64, b"150.xlog".to_vec()));
    let chosen = scan_dir_scn_select(Vec::new(), last);
    assert_eq!(chosen.len(), 1);
    assert_eq!(chosen[0].0, 150);

    let matched: Vec<(i64, Vec<u8>)> = vec![(2, b"2.xlog".to_vec())];
    let kept = scan_dir_scn_select(matched, Some((150, b"150.xlog".to_vec())));
    assert_eq!(kept.len(), 1);
    assert_eq!(kept[0].0, 2);

    assert!(scan_dir_scn_select(Vec::new(), None).is_empty());
}

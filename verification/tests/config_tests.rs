use treehash::config::{
    contains_bytes_exec, get_msfs_packages_dir, is_usercfg_candidate_exec, parse_usercfg_line,
    to_lower_bytes, trim_ascii,
};

#[test]
fn parses_quoted_packages_path() {
    let line = b"InstalledPackagesPath \"C:\\MSFS\\Packages\"".to_vec();
    assert_eq!(parse_usercfg_line(&line), Some(b"C:\\MSFS\\Packages".to_vec()));
}

#[test]
fn parses_indented_line() {
    let line = b"\t  InstalledPackagesPath \"D:\\Data\"  \r".to_vec();
    assert_eq!(parse_usercfg_line(&line), Some(b"D:\\Data".to_vec()));
}

#[test]
fn rejects_lines_without_the_key() {
    assert_eq!(parse_usercfg_line(&b"SomethingElse \"x\"".to_vec()), None);
    assert_eq!(parse_usercfg_line(&b"".to_vec()), None);
}

#[test]
fn rejects_malformed_key_lines() {
    // No space after the key.
    assert_eq!(parse_usercfg_line(&b"InstalledPackagesPath".to_vec()), None);
    // Too little after the space to strip both quotes.
    assert_eq!(parse_usercfg_line(&b"InstalledPackagesPath \"".to_vec()), None);
}

#[test]
fn finds_the_first_key_line() {
    let lines = vec![
        b"Version 2".to_vec(),
        b"  InstalledPackagesPath \"E:\\One\"".to_vec(),
        b"InstalledPackagesPath \"E:\\Two\"".to_vec(),
    ];
    assert_eq!(get_msfs_packages_dir(&lines), Some(b"E:\\One".to_vec()));
}

#[test]
fn yields_nothing_without_a_key_line() {
    let lines = vec![b"Version 2".to_vec(), b"Other \"x\"".to_vec()];
    assert_eq!(get_msfs_packages_dir(&lines), None);
}

#[test]
fn first_key_line_decides_even_when_malformed() {
    // The first line with the key is the one that counts; a later
    // well-formed one does not rescue it.
    let lines = vec![
        b"InstalledPackagesPath".to_vec(),
        b"InstalledPackagesPath \"E:\\Two\"".to_vec(),
    ];
    assert_eq!(get_msfs_packages_dir(&lines), None);
}

#[test]
fn trims_ascii_whitespace() {
    assert_eq!(trim_ascii(&b"  \tabc \r\n".to_vec()), b"abc".to_vec());
    assert_eq!(trim_ascii(&b"   ".to_vec()), b"".to_vec());
    assert_eq!(trim_ascii(&b"abc".to_vec()), b"abc".to_vec());
}

#[test]
fn lowercases_ascii_only() {
    assert_eq!(to_lower_bytes(&b"MiXeD-09_Z".to_vec()), b"mixed-09_z".to_vec());
}

#[test]
fn substring_search_finds_and_rejects() {
    assert!(contains_bytes_exec(&b"abcdef".to_vec(), &b"cde".to_vec()));
    assert!(contains_bytes_exec(&b"abcdef".to_vec(), &b"".to_vec()));
    assert!(contains_bytes_exec(&b"abcdef".to_vec(), &b"abcdef".to_vec()));
    assert!(!contains_bytes_exec(&b"abcdef".to_vec(), &b"cdf".to_vec()));
    assert!(!contains_bytes_exec(&b"ab".to_vec(), &b"abc".to_vec()));
}

#[test]
fn recognizes_candidate_config_paths() {
    let name = b"UserCfg.opt".to_vec();
    let path = b"C:\\Users\\me\\AppData\\Roaming\\Microsoft Flight Simulator\\UserCfg.opt".to_vec();
    assert!(is_usercfg_candidate_exec(&name, &path));
    // The markers are matched case-insensitively.
    let path2 = b"/home/me/MICROSOFT/flight/UserCfg.opt".to_vec();
    assert!(is_usercfg_candidate_exec(&name, &path2));
    // The wrong file name is never a candidate.
    assert!(!is_usercfg_candidate_exec(&b"usercfg.opt".to_vec(), &path));
    // A path that does not mention the simulator is not a candidate.
    assert!(!is_usercfg_candidate_exec(&name, &b"/tmp/UserCfg.opt".to_vec()));
}

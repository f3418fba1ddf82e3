use pixel_shell::scan::{
    is_wanted, scan_bin_files, scan_dist_files, scan_files_with_ext, scan_video_files,
};

fn exts(list: &[Option<&str>]) -> Vec<Option<String>> {
    list.iter().map(|e| e.map(|s| s.to_string())).collect()
}

#[test]
fn videos_are_told_by_four_extensions() {
    let found = exts(&[Some("mp4"), Some("txt"), Some("mkv"), None, Some("avi"), Some("mov"), Some("webm")]);
    assert_eq!(scan_video_files(&found), vec![0, 2, 4, 5]);
}

#[test]
fn case_of_the_extension_does_not_matter() {
    let found = exts(&[Some("MP4"), Some("Mkv"), Some("BIN"), Some("Exe")]);
    assert_eq!(scan_video_files(&found), vec![0, 1]);
    assert_eq!(scan_bin_files(&found), vec![2]);
    assert_eq!(scan_dist_files(&found), vec![3]);
}

#[test]
fn files_without_extension_are_passed_over() {
    let found = exts(&[None, Some(""), Some("bin"), None]);
    assert_eq!(scan_bin_files(&found), vec![2]);
    assert_eq!(scan_dist_files(&found), vec![]);
    assert_eq!(scan_video_files(&exts(&[])), vec![]);
}

#[test]
fn extension_must_match_as_a_whole() {
    let found = exts(&[Some("bin2"), Some("xbin"), Some("bi"), Some("bin")]);
    assert_eq!(scan_bin_files(&found), vec![3]);
}

#[test]
fn any_list_of_wanted_extensions() {
    let found = exts(&[Some("OGG"), Some("bin"), Some("ogg")]);
    let wanted = vec!["ogg".to_string()];
    assert_eq!(scan_files_with_ext(&found, &wanted), vec![0, 2]);
    assert_eq!(scan_files_with_ext(&found, &vec![]), vec![]);
}

#[test]
fn wanted_extensions_are_compared_as_given() {
    let wanted = vec!["bin".to_string(), "EXE".to_string()];
    assert!(is_wanted("bin", &wanted));
    assert!(is_wanted("EXE", &wanted));
    assert!(!is_wanted("exe", &wanted));
    assert!(!is_wanted("", &wanted));
}

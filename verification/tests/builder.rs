use pixel_shell::archive::parse_footer;
use pixel_shell::builder::{
    audio_candidates, audio_file_name, bin_file_name, build_single_target, detect_audio_path,
    detect_resolution, get_available_builds, output_file_name, resolution_dimensions,
    resolution_entry, select_targets, target_selected, BuildTarget, RESOLUTION_COUNT,
};

fn target(project: &str, resolution: &str) -> BuildTarget {
    let (w, h) = resolution_dimensions(resolution).unwrap();
    BuildTarget {
        project: project.to_string(),
        resolution: resolution.to_string(),
        width: w,
        height: h,
        bin_path: format!("/assets/{}/{}_{}.bin", project, project, resolution),
        audio_path: format!("/assets/{}/{}.ogg", project, project),
    }
}

#[test]
fn table_of_resolutions() {
    assert_eq!(RESOLUTION_COUNT, 4);
    assert_eq!(resolution_entry(0), ("720p", 1280, 720));
    assert_eq!(resolution_entry(1), ("1080p", 1920, 1080));
    assert_eq!(resolution_entry(2), ("1440p", 2560, 1440));
    assert_eq!(resolution_entry(3), ("2160p", 3840, 2160));
}

#[test]
fn resolution_is_found_in_the_file_name() {
    assert_eq!(detect_resolution("clip_720p.bin"), ("720p".to_string(), 1280, 720));
    assert_eq!(detect_resolution("clip_1080p.bin"), ("1080p".to_string(), 1920, 1080));
    assert_eq!(detect_resolution("clip_1440p.bin"), ("1440p".to_string(), 2560, 1440));
    assert_eq!(detect_resolution("2160p-clip"), ("2160p".to_string(), 3840, 2160));
}

#[test]
fn resolution_defaults_to_1080p() {
    assert_eq!(detect_resolution("clip.bin"), ("1080p".to_string(), 1920, 1080));
    assert_eq!(detect_resolution(""), ("1080p".to_string(), 1920, 1080));
    assert_eq!(detect_resolution("clip_720.bin"), ("1080p".to_string(), 1920, 1080));
}

#[test]
fn first_resolution_of_the_table_wins() {
    assert_eq!(detect_resolution("a_2160p_b_720p"), ("720p".to_string(), 1280, 720));
    assert_eq!(detect_resolution("x1440p1080p"), ("1080p".to_string(), 1920, 1080));
}

#[test]
fn dimensions_by_exact_name() {
    assert_eq!(resolution_dimensions("720p"), Some((1280, 720)));
    assert_eq!(resolution_dimensions("2160p"), Some((3840, 2160)));
    assert_eq!(resolution_dimensions("480p"), None);
    assert_eq!(resolution_dimensions("clip_720p"), None);
    assert_eq!(resolution_dimensions(""), None);
}

#[test]
fn audio_is_looked_for_under_two_names() {
    assert_eq!(
        audio_candidates("clip_1080p"),
        ("clip_1080p.ogg".to_string(), "clip.ogg".to_string())
    );
    assert_eq!(audio_candidates("clip"), ("clip.ogg".to_string(), "clip.ogg".to_string()));
    assert_eq!(
        audio_candidates("a_720p_b_2160p_1440p"),
        ("a_720p_b_2160p_1440p.ogg".to_string(), "a_b.ogg".to_string())
    );
}

#[test]
fn tag_inside_a_project_name_is_stripped_too() {
    assert_eq!(audio_candidates("my_720p_show_1080p").1, "my_show.ogg");
    assert_eq!(audio_candidates("_720_1080pp").1, "_720p.ogg");
}

#[test]
fn exact_audio_name_is_preferred() {
    assert_eq!(detect_audio_path("clip_720p", true, true), Some("clip_720p.ogg".to_string()));
    assert_eq!(detect_audio_path("clip_720p", true, false), Some("clip_720p.ogg".to_string()));
    assert_eq!(detect_audio_path("clip_720p", false, true), Some("clip.ogg".to_string()));
    assert_eq!(detect_audio_path("clip_720p", false, false), None);
}

#[test]
fn file_names_of_a_project() {
    assert_eq!(bin_file_name("clip", "1440p"), "clip_1440p.bin");
    assert_eq!(audio_file_name("clip"), "clip.ogg");
    assert_eq!(output_file_name(&target("clip", "720p")), "clip_720p.exe");
}

#[test]
fn project_without_audio_has_no_targets() {
    let bins = vec![Some("a".to_string()), None, None, Some("b".to_string())];
    assert!(get_available_builds("clip", &None, &bins).is_empty());
}

#[test]
fn one_target_per_stream_found() {
    let bins = vec![Some("/p/clip_720p.bin".to_string()), None, Some("/p/clip_1440p.bin".to_string()), None];
    let targets = get_available_builds("clip", &Some("/p/clip.ogg".to_string()), &bins);
    assert_eq!(targets.len(), 2);
    assert_eq!(targets[0].project, "clip");
    assert_eq!(targets[0].resolution, "720p");
    assert_eq!((targets[0].width, targets[0].height), (1280, 720));
    assert_eq!(targets[0].bin_path, "/p/clip_720p.bin");
    assert_eq!(targets[0].audio_path, "/p/clip.ogg");
    assert_eq!(targets[1].resolution, "1440p");
    assert_eq!((targets[1].width, targets[1].height), (2560, 1440));
    assert_eq!(targets[1].bin_path, "/p/clip_1440p.bin");
}

#[test]
fn short_or_long_lists_of_streams() {
    let audio = Some("a.ogg".to_string());
    assert!(get_available_builds("clip", &audio, &vec![]).is_empty());
    let five = vec![None, Some("b".to_string()), None, None, Some("ignored".to_string())];
    let targets = get_available_builds("clip", &audio, &five);
    assert_eq!(targets.len(), 1);
    assert_eq!(targets[0].resolution, "1080p");
}

#[test]
fn targets_are_filtered_by_project_and_resolution() {
    let all = vec![
        target("a", "720p"),
        target("a", "1080p"),
        target("b", "720p"),
        target("b", "2160p"),
    ];
    assert_eq!(select_targets(&all, &None, &None), vec![0, 1, 2, 3]);
    assert_eq!(select_targets(&all, &Some("a".to_string()), &None), vec![0, 1]);
    let wanted = Some(vec!["720p".to_string(), "2160p".to_string()]);
    assert_eq!(select_targets(&all, &None, &wanted), vec![0, 2, 3]);
    assert_eq!(select_targets(&all, &Some("b".to_string()), &wanted), vec![2, 3]);
    assert_eq!(select_targets(&all, &Some("c".to_string()), &None), vec![]);
    assert_eq!(select_targets(&all, &None, &Some(vec![])), vec![]);
    assert!(target_selected(&all[3], &Some("b".to_string()), &wanted));
    assert!(!target_selected(&all[1], &None, &wanted));
}

#[test]
fn archive_of_a_target_carries_its_sides() {
    let t = target("clip", "1440p");
    let built = build_single_target(&t, &[1, 2, 3], &[4, 5], &[6]).unwrap();
    assert_eq!(built.file_name, "clip_1440p.exe");
    assert_eq!(built.bytes.len(), 6 + 44);
    let footer = parse_footer(&built.bytes).unwrap();
    assert_eq!(footer.width, 2560);
    assert_eq!(footer.height, 1440);
    assert_eq!(footer.video_offset, 3);
    assert_eq!(footer.video_len, 2);
    assert_eq!(footer.audio_offset, 5);
    assert_eq!(footer.audio_len, 1);
}

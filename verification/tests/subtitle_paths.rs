use lang_tools::subtitle::path::{build_subtitle_path, build_subtitle_path_from_path};

#[test]
fn should_return_file_path_if_it_has_srt_extension() {
    let path = build_subtitle_path(
        Some("/path/subs.srt".to_string()),
        Some("/arg_path".to_string()),
        Some("/config_path".to_string()),
        "title",
        &Some("de".to_owned()),
        &Some("channel".to_owned()),
    )
    .unwrap();

    assert_eq!(path, "/path/subs.srt")
}

#[test]
#[should_panic]
fn should_fail_if_file_path_does_not_have_srt_extension() {
    build_subtitle_path(
        Some("/path/subs.foo".to_string()),
        Some("/arg_path".to_string()),
        Some("/config_path".to_string()),
        "title",
        &Some("de".to_owned()),
        &Some("channel".to_owned()),
    )
    .unwrap();
}

#[test]
#[should_panic]
fn should_fail_if_file_path_does_not_have_extension() {
    build_subtitle_path(
        Some("/path/subs".to_string()),
        Some("/arg_path".to_string()),
        Some("/config_path".to_string()),
        "title",
        &Some("de".to_owned()),
        &Some("channel".to_owned()),
    )
    .unwrap();
}

#[test]
fn should_add_channel_and_file_name_if_path_is_directory() {
    let path = build_subtitle_path(
        None,
        Some("/arg_path".to_string()),
        Some("/config_path".to_string()),
        "title",
        &Some("de".to_owned()),
        &Some("channel".to_owned()),
    )
    .unwrap();

    assert_eq!(path, "/arg_path/channel/title.de.srt")
}

#[test]
fn should_exclude_lang_if_missing() {
    let path = build_subtitle_path(
        None,
        Some("/arg_path".to_string()),
        Some("/config_path".to_string()),
        "title",
        &None,
        &Some("channel".to_owned()),
    )
    .unwrap();

    assert_eq!(path, "/arg_path/channel/title.srt")
}

#[test]
fn should_exclude_channel_if_missing() {
    let path = build_subtitle_path(
        None,
        Some("/arg_path".to_string()),
        Some("/config_path".to_string()),
        "title",
        &Some("de".to_owned()),
        &None,
    )
    .unwrap();

    assert_eq!(path, "/arg_path/title.de.srt")
}

#[test]
fn should_use_config_path_if_arg_path_missing() {
    let path = build_subtitle_path(
        None,
        None,
        Some("/config_path".to_string()),
        "title",
        &Some("de".to_owned()),
        &Some("channel".to_owned()),
    )
    .unwrap();

    assert_eq!(path, "/config_path/channel/title.de.srt")
}

#[test]
fn should_return_path_with_lang_from_arg() {
    let path = "/path/file.de.srt".to_string();
    let result = build_subtitle_path_from_path(path, Some("en".to_owned()), None);
    assert_eq!(result, "/path/file.en.srt")
}

#[test]
fn should_return_path_with_lang_from_config() {
    let path = "/path/file.de.srt".to_string();
    let result = build_subtitle_path_from_path(path, None, Some("en".to_owned()));
    assert_eq!(result, "/path/file.en.srt")
}

#[test]
fn should_use_translate_when_missing_lang() {
    let path = "/path/file.srt".to_string();
    let result = build_subtitle_path_from_path(path, None, None);
    assert_eq!(result, "/path/file.translated.srt")
}

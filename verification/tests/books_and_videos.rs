use lang_tools::book::{book_path, clean_section_title, clean_text, section_path, BookSection};
use lang_tools::translation::Translation;
use lang_tools::youtube::{
    find_subtitle_choice, subtitle_choices, SubtitleChoice, SubtitleTrack, VideoInfo,
};

#[test]
fn book_paths_are_joined() {
    assert_eq!(book_path("/books", "Der Astronaut"), "/books/Der Astronaut");
    assert_eq!(book_path("/books/", "Der Astronaut"), "/books/Der Astronaut");
    assert_eq!(book_path("", "Der Astronaut"), "Der Astronaut");
}

#[test]
fn section_paths_are_numbered_and_padded() {
    let s = BookSection::new("Kapitel Eins".to_string(), 7, "Inhalt".to_string());
    assert_eq!(section_path("/books/Der Astronaut", &s), "/books/Der Astronaut/007-Kapitel Eins.md");
    let s2 = BookSection::new("Später".to_string(), 1234, "Inhalt".to_string());
    assert_eq!(section_path("/books", &s2), "/books/1234-Später.md");
}

#[test]
fn clean_text_drops_blank_lines() {
    assert_eq!(clean_text("eins\n\n  \nzwei\n"), "eins\nzwei\n");
    assert_eq!(clean_text("\n\nnur das"), "nur das");
    assert_eq!(clean_text(""), "");
}

#[test]
fn clean_section_title_strips_heading_marker() {
    assert_eq!(clean_section_title("# Kapitel"), "Kapitel");
    assert_eq!(clean_section_title("  #  Kapitel"), "Kapitel");
    assert_eq!(clean_section_title("Kapitel"), "Kapitel");
}

#[test]
fn translations_pair_lines_in_order() {
    let v = Translation::from_source_and_target("eins\nzwei", "one\ntwo").unwrap();
    assert_eq!(v.len(), 2);
    assert_eq!(v[0].source_text, "eins");
    assert_eq!(v[0].target_text, "one");
    assert_eq!(v[1].source_text, "zwei");
    assert_eq!(v[1].target_text, "two");
}

#[test]
fn subtitle_choices_keep_usable_tracks() {
    let subs = vec![
        (
            "de".to_string(),
            vec![
                SubtitleTrack { ext: Some("vtt".to_string()), url: Some("http://a/de.vtt".to_string()) },
                SubtitleTrack { ext: Some("json".to_string()), url: Some("http://a/de.json".to_string()) },
                SubtitleTrack { ext: None, url: Some("http://a/de.bin".to_string()) },
            ],
        ),
        (
            "en".to_string(),
            vec![
                SubtitleTrack { ext: Some("srt".to_string()), url: None },
                SubtitleTrack { ext: Some("srt".to_string()), url: Some("http://a/en.srt".to_string()) },
            ],
        ),
    ];
    let choices = subtitle_choices(&subs);
    assert_eq!(
        choices,
        vec![
            SubtitleChoice::new("de".to_string(), "vtt".to_string(), "http://a/de.vtt".to_string()),
            SubtitleChoice::new("en".to_string(), "srt".to_string(), "http://a/en.srt".to_string()),
        ]
    );
}

#[test]
fn find_subtitle_choice_picks_first_match() {
    let choices = vec![
        SubtitleChoice::new("de".to_string(), "vtt".to_string(), "u1".to_string()),
        SubtitleChoice::new("de".to_string(), "srt".to_string(), "u2".to_string()),
        SubtitleChoice::new("de".to_string(), "srt".to_string(), "u3".to_string()),
    ];
    assert_eq!(find_subtitle_choice(&choices, "de", "srt"), Some(1));
    assert_eq!(find_subtitle_choice(&choices, "en", "srt"), None);
}

#[test]
fn choices_describe_themselves() {
    let c = SubtitleChoice::new("de".to_string(), "vtt".to_string(), "u".to_string());
    assert_eq!(c.describe(), "Language: de, Format: vtt");
    let info = VideoInfo::new("Titel".to_string(), None, vec![c]);
    assert_eq!(info.choices[0].format, "vtt");
}

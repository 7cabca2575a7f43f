use lang_tools::subtitle::extract::extract_text;
use lang_tools::subtitle::{Subtitle, Timestamp};

fn subs_for_extraction(texts: Vec<&str>) -> Vec<Subtitle> {
    texts
        .into_iter()
        .enumerate()
        .map(|(index, text)| {
            Subtitle::new(
                index + 1,
                Timestamp::new(0, 0, 0, 0),
                Timestamp::new(0, 0, 1, 0),
                text.to_string(),
            )
        })
        .collect()
}

#[test]
fn treat_single_uppercase_letter_followed_by_period_as_part_of_sentence() {
    let subtitles = subs_for_extraction(vec!["7 h später stirbt Susanne F.\nan ihren Verletzungen."]);

    let text = extract_text(&subtitles);

    assert_eq!(text, "7 h später stirbt Susanne F. an ihren Verletzungen.")
}

#[test]
fn treat_line_ending_with_number_followed_by_period_as_part_of_sentence() {
    let subtitles = subs_for_extraction(vec!["Heute sieht sie diese Aufnahmen zum 1.\nMal."]);

    let text = extract_text(&subtitles);

    assert_eq!(text, "Heute sieht sie diese Aufnahmen zum 1. Mal.")
}

#[test]
fn join_hyphen_at_end_of_line() {
    let subtitles = subs_for_extraction(vec![
        "Die Folgen - damals wie heute -\nein Problem für die jetzt 33-Jährige.",
    ]);

    let text = extract_text(&subtitles);

    assert_eq!(text, "Die Folgen - damals wie heute - ein Problem für die jetzt 33-Jährige.")
}

#[test]
fn astericks_newline() {
    let subtitles = subs_for_extraction(vec![
        "Davon jedenfalls\ngeht Sigrid Kamisch aus.",
        "* Musik *",
        "Dann habe ich\neinen Freund angerufen, der bei der Polizei arbeitet.",
    ]);

    let text = extract_text(&subtitles);

    assert_eq!(text, "Davon jedenfalls geht Sigrid Kamisch aus.\n* Musik *\nDann habe ich einen Freund angerufen, der bei der Polizei arbeitet.")
}

// Lines are trimmed before they are joined.
#[test]
fn extraction_trims_each_line() {
    let subtitles = subs_for_extraction(vec!["  Ich bin hier  \n  du auch  "]);

    let text = extract_text(&subtitles);

    assert_eq!(text, "Ich bin hier du auch");
}

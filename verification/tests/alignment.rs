use lang_tools::error::AlignError;
use lang_tools::subtitle::translation::{align, translated_subtitles};
use lang_tools::subtitle::{Subtitle, Timestamp};
use lang_tools::translation::Translation;

fn subtitles(texts: Vec<&str>) -> Vec<Subtitle> {
    texts
        .into_iter()
        .enumerate()
        .map(|(index, text)| {
            Subtitle::new(
                index + 1,
                Timestamp::new(0, 0, 0, 0),
                Timestamp::new(0, 0, 1, 0),
                text.to_string(),
            )
        })
        .collect()
}

#[test]
fn test_single_subtitle_with_equal_length_translation() {
    let translations = vec![Translation::new("Source text", "Target text")];
    let subs = subtitles(vec!["Source text"]);

    let aligned = align(&subs, &translations).unwrap();

    assert_eq!(aligned, subtitles(vec!["Target text"]))
}

#[test]
fn test_two_subtitles_one_translation() {
    let translations = vec![Translation::new(
        "Es geht um Mountainbiker und die Frage: Wer darf hier wie den Wald nutzen?",
        "It's about mountain bikers and the question: Who is allowed to use the forest here and how?",
    )];

    let subs = subtitles(vec![
        "Es geht um Mountainbiker\nund die Frage:",
        "Wer darf hier wie den Wald nutzen?",
    ]);

    let aligned = align(&subs, &translations).unwrap();

    assert_eq!(
        aligned,
        subtitles(vec![
            "It's about mountain bikers\nand the question: Who",
            "is allowed to use the forest here and how?"
        ])
    )
}

#[test]
fn test_weird_space() {
    let translations = vec![Translation::new(
        "Wir haben euch gefragt, hat von euch schon mal jemand gecatfisht?",
        "We asked you, has anyone of you ever catfished?",
    )];

    let subs = subtitles(vec![
        "Wir haben euch gefragt, hat von euch schon mal jemand gecatfisht?",
    ]);
    let aligned = align(&subs, &translations).unwrap();

    assert_eq!(aligned, subtitles(vec!["We asked you, has anyone of you ever catfished?"]));
}

// Pairing a three-line source with a two-line translation fails with both
// counts.
#[test]
fn line_count_mismatch_carries_both_counts() {
    let r = Translation::from_source_and_target("a\nb\nc", "x\ny");
    assert_eq!(r.err(), Some(AlignError::LineCountMismatch { expected: 3, got: 2 }));
}

// The whole translation flow through line pairing and alignment.
#[test]
fn translated_subtitles_end_to_end() {
    let subs = subtitles(vec![
        "Es geht um Mountainbiker\nund die Frage:",
        "Wer darf hier wie den Wald nutzen?",
    ]);
    let source = "Es geht um Mountainbiker und die Frage: Wer darf hier wie den Wald nutzen?";
    let target =
        "It's about mountain bikers and the question: Who is allowed to use the forest here and how?";

    let aligned = translated_subtitles(&subs, source, target).unwrap();

    assert_eq!(
        aligned,
        subtitles(vec![
            "It's about mountain bikers\nand the question: Who",
            "is allowed to use the forest here and how?"
        ])
    );
}

// A diverging word is reported with the expected word, the observed token
// and the stream position.
#[test]
fn token_sync_mismatch_is_reported() {
    let translations = vec![Translation::new("alpha beta", "eins zwei")];
    let subs = subtitles(vec!["alpha gamma"]);

    let r = align(&subs, &translations);
    assert_eq!(
        r.err(),
        Some(AlignError::TokenSyncMismatch {
            expected_word: "beta".to_string(),
            observed_token: "gamma".to_string(),
            position: 1,
        })
    );
}

// More word tokens than allocations: the stream runs dry.
#[test]
fn stream_exhaustion_on_short_stream() {
    let translations = vec![Translation::new("alpha", "eins")];
    let subs = subtitles(vec!["alpha beta"]);

    let r = align(&subs, &translations);
    assert_eq!(r.err(), Some(AlignError::StreamExhaustion));
}

// Fewer word tokens than allocations: leftovers are a defect too.
#[test]
fn stream_exhaustion_on_leftover_allocations() {
    let translations = vec![Translation::new("alpha beta", "eins zwei")];
    let subs = subtitles(vec!["alpha"]);

    let r = align(&subs, &translations);
    assert_eq!(r.err(), Some(AlignError::StreamExhaustion));
}

// An empty document against an empty translation succeeds and changes
// nothing.
#[test]
fn empty_batch_aligns_to_itself() {
    let subs = subtitles(vec![]);
    let aligned = align(&subs, &Vec::new()).unwrap();
    assert_eq!(aligned, subtitles(vec![]));
}

// A degenerate line pair fails the whole batch.
#[test]
fn degenerate_pair_fails_alignment() {
    let translations = vec![Translation::new("", "words appeared")];
    let subs = subtitles(vec![""]);

    let r = align(&subs, &translations);
    assert_eq!(r.err(), Some(AlignError::DegenerateSourceLine));
}

// An allocation of two target words is joined with a single space, and an
// empty allocation leaves no double space behind.
#[test]
fn spacing_artifacts_are_cleaned() {
    let translations = vec![Translation::new("a b c", "x")];
    let subs = subtitles(vec!["a b c"]);

    let aligned = align(&subs, &translations).unwrap();
    assert_eq!(aligned[0].text, "x");
}

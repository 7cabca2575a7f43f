use lang_tools::subtitle::ext::SubtitleExt;
use lang_tools::subtitle::{Subtitle, Timestamp};
use lang_tools::tokenize::{tokenize, words, Token};

fn cat(tokens: &Vec<Token>) -> String {
    let mut out = String::new();
    for t in tokens {
        match t {
            Token::Word(w) => out.push_str(w),
            Token::Space(s) => out.push_str(s),
        }
    }
    out
}

// Concatenating the tokens reproduces the input, for a mix of shapes.
#[test]
fn tokenization_is_lossless() {
    let samples = vec![
        "",
        " ",
        "word",
        "  This is  some text. ",
        "line one\nline two",
        "tabs\tand\u{a0}odd spaces",
        "-- punctuation, too! --",
    ];
    for s in samples {
        let toks = tokenize(s);
        assert_eq!(cat(&toks), s);
    }
}

// The documented example: words and spaces, in order, without loss.
#[test]
fn words_and_spaces_example() {
    let sub = Subtitle::new(
        1,
        Timestamp::new(0, 0, 0, 0),
        Timestamp::new(0, 0, 1, 0),
        "  This is  some text. ".to_string(),
    );
    let toks = sub.words_and_spaces();
    let expected = vec![
        Token::Space("  ".to_string()),
        Token::Word("This".to_string()),
        Token::Space(" ".to_string()),
        Token::Word("is".to_string()),
        Token::Space("  ".to_string()),
        Token::Word("some".to_string()),
        Token::Space(" ".to_string()),
        Token::Word("text.".to_string()),
        Token::Space(" ".to_string()),
    ];
    assert_eq!(toks, expected);
}

// Splitting into words drops every kind of whitespace separator.
#[test]
fn words_split_on_whitespace() {
    assert_eq!(words("one two\nthree\tfour"), vec!["one", "two", "three", "four"]);
    assert_eq!(words("   "), Vec::<String>::new());
    assert_eq!(words(""), Vec::<String>::new());
    assert_eq!(words(" x "), vec!["x"]);
}

use lang_tools::error::AlignError;
use lang_tools::proportional::ProportionalIter;

fn owned(words: Vec<&str>) -> Vec<String> {
    words.into_iter().map(|w| w.to_string()).collect()
}

// Test two sentences of equal size
#[test]
fn zipped_source_size_equals_target_size() {
    let mut iter = ProportionalIter::new("one two three four", "one' two' three' four'").unwrap();

    assert_eq!(iter.next(), Some(("one".to_string(), owned(vec!["one'"]))));
    assert_eq!(iter.next(), Some(("two".to_string(), owned(vec!["two'"]))));
    assert_eq!(iter.next(), Some(("three".to_string(), owned(vec!["three'"]))));
    assert_eq!(iter.next(), Some(("four".to_string(), owned(vec!["four'"]))));
    assert_eq!(iter.next(), None);
}

// Source is length 1 and target is length 2.
#[test]
fn zipped_source_one_target_two() {
    let mut iter = ProportionalIter::new("one", "one' two'").unwrap();

    assert_eq!(iter.next(), Some(("one".to_string(), owned(vec!["one'", "two'"]))));
    assert_eq!(iter.next(), None);
}

// Source is length 2 and target is length 4.
#[test]
fn zipped_source_half_target() {
    let mut iter = ProportionalIter::new("one two", "one' two' three' four'").unwrap();

    assert_eq!(iter.next(), Some(("one".to_string(), owned(vec!["one'", "two'"]))));
    assert_eq!(iter.next(), Some(("two".to_string(), owned(vec!["three'", "four'"]))));
    assert_eq!(iter.next(), None);
}

// Source is length 5 and target is length 7.
#[test]
fn zipped_source_five_target_two() {
    let mut iter = ProportionalIter::new(
        "one two three four five",
        "one' two' three' four' five' six' seven'",
    )
    .unwrap();

    assert_eq!(iter.next(), Some(("one".to_string(), owned(vec!["one'"]))));
    assert_eq!(iter.next(), Some(("two".to_string(), owned(vec!["two'"]))));
    assert_eq!(iter.next(), Some(("three".to_string(), owned(vec!["three'", "four'"]))));
    assert_eq!(iter.next(), Some(("four".to_string(), owned(vec!["five'"]))));
    assert_eq!(iter.next(), Some(("five".to_string(), owned(vec!["six'", "seven'"]))));
    assert_eq!(iter.next(), None);
}

// Source is length 4 and target is length 7.
#[test]
fn zipped_source_four_target_seven() {
    let mut iter = ProportionalIter::new(
        "one two three four",
        "one' two' three' four' five' six' seven'",
    )
    .unwrap();

    assert_eq!(iter.next(), Some(("one".to_string(), owned(vec!["one'"]))));
    assert_eq!(iter.next(), Some(("two".to_string(), owned(vec!["two'", "three'"]))));
    assert_eq!(iter.next(), Some(("three".to_string(), owned(vec!["four'", "five'"]))));
    assert_eq!(iter.next(), Some(("four".to_string(), owned(vec!["six'", "seven'"]))));
    assert_eq!(iter.next(), None);
}

// Source is length 10 and target is length 7.
#[test]
fn zipped_source_ten_target_seven() {
    let mut iter = ProportionalIter::new(
        "one two three four five six seven eight nine ten",
        "one' two' three' four' five' six' seven'",
    )
    .unwrap();

    assert_eq!(iter.next(), Some(("one".to_string(), owned(vec!["one'"]))));
    assert_eq!(iter.next(), Some(("two".to_string(), owned(vec!["two'"]))));
    assert_eq!(iter.next(), Some(("three".to_string(), owned(vec!["three'"]))));
    assert_eq!(iter.next(), Some(("four".to_string(), owned(vec![]))));
    assert_eq!(iter.next(), Some(("five".to_string(), owned(vec!["four'"]))));
    assert_eq!(iter.next(), Some(("six".to_string(), owned(vec!["five'"]))));
    assert_eq!(iter.next(), Some(("seven".to_string(), owned(vec![]))));
    assert_eq!(iter.next(), Some(("eight".to_string(), owned(vec!["six'"]))));
    assert_eq!(iter.next(), Some(("nine".to_string(), owned(vec!["seven'"]))));
    assert_eq!(iter.next(), Some(("ten".to_string(), owned(vec![]))));
    assert_eq!(iter.next(), None);
}

// A source line without words cannot absorb target words.
#[test]
fn degenerate_source_line_is_rejected() {
    let r = ProportionalIter::new("   ", "one' two'");
    assert_eq!(r.err(), Some(AlignError::DegenerateSourceLine));
}

// A pair of empty lines distributes nothing.
#[test]
fn empty_pair_yields_nothing() {
    let mut iter = ProportionalIter::new("", "").unwrap();
    assert_eq!(iter.next(), None);
}

// The conservation law on concrete sizes: every target word is handed out
// exactly once, whatever the ratio.
#[test]
fn conservation_across_sizes() {
    for s in 1usize..12 {
        for t in 0usize..18 {
            let source: Vec<String> = (0..s).map(|i| format!("s{}", i)).collect();
            let target: Vec<String> = (0..t).map(|i| format!("t{}", i)).collect();
            let mut iter =
                ProportionalIter::new(&source.join(" "), &target.join(" ")).unwrap();
            let mut collected: Vec<String> = Vec::new();
            let mut steps = 0;
            while let Some((_, targets)) = iter.next() {
                collected.extend(targets);
                steps += 1;
            }
            assert_eq!(steps, s);
            assert_eq!(collected, target);
        }
    }
}

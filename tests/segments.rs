use hieroglyph::{Segment, Segments};

#[derive(Debug, PartialEq)]
enum Part {
    Text(String),
    Emoji(String),
}

fn text(s: &str) -> Part {
    Part::Text(s.to_string())
}

fn emoji(s: &str) -> Part {
    Part::Emoji(s.to_string())
}

fn parts(input: &str) -> Vec<Part> {
    Segments::new(input)
        .as_slice()
        .iter()
        .map(|segment| match segment {
            Segment::Text(t) => Part::Text(t.as_str().to_string()),
            Segment::Emoji(e) => Part::Emoji(e.emoji().to_string()),
        })
        .collect()
}

#[test]
fn segmentation_works() {
    assert_eq!(parts("abc"), vec![text("abc")]);
    assert_eq!(parts("🌈"), vec![emoji("🌈")]);
    assert_eq!(parts("duck 🦆"), vec![text("duck "), emoji("🦆")]);
    assert_eq!(
        parts("Hello, world! 🌍🎉"),
        vec![text("Hello, world! "), emoji("🌍"), emoji("🎉")]
    );
    assert_eq!(
        parts("🔥🔥🔥 Fire emoji!"),
        vec![emoji("🔥"), emoji("🔥"), emoji("🔥"), text(" Fire emoji!")]
    );
    assert_eq!(
        parts("🤔 What do you think? 😄"),
        vec![emoji("🤔"), text(" What do you think? "), emoji("😄")]
    );
    assert_eq!(
        parts("😊🌼🌟 Happy flowers and stars!"),
        vec![emoji("😊"), emoji("🌼"), emoji("🌟"), text(" Happy flowers and stars!")]
    );
    assert_eq!(
        parts("🚀Launch!🚀"),
        vec![emoji("🚀"), text("Launch!"), emoji("🚀")]
    );
    assert_eq!(parts(""), vec![]);
}

#[test]
fn classify_plain_text() {
    assert_eq!(parts("abc"), vec![text("abc")]);
}

#[test]
fn classify_single_emoji() {
    assert_eq!(parts("🌈"), vec![emoji("🌈")]);
}

#[test]
fn classify_text_then_emoji() {
    assert_eq!(parts("duck 🦆"), vec![text("duck "), emoji("🦆")]);
}

#[test]
fn classify_emoji_never_merged() {
    assert_eq!(
        parts("🔥🔥🔥 Fire emoji!"),
        vec![emoji("🔥"), emoji("🔥"), emoji("🔥"), text(" Fire emoji!")]
    );
    assert_eq!(parts("🌈🦆🔥"), vec![emoji("🌈"), emoji("🦆"), emoji("🔥")]);
}

#[test]
fn classify_empty() {
    assert_eq!(parts(""), vec![]);
}

#[test]
fn spans_reproduce_input() {
    for input in [
        "",
        "abc",
        "Hello 👋🌍 with more text",
        "W🎉ide",
        "你好，世界",
        "a̐éö̲ 🇩🇪 🦆",
    ] {
        let joined: String = parts(input)
            .into_iter()
            .map(|p| match p {
                Part::Text(s) | Part::Emoji(s) => s,
            })
            .collect();
        assert_eq!(joined, input);
    }
}

#[test]
fn joined_sequence_is_one_emoji() {
    let family = "👨\u{200d}👩\u{200d}👧\u{200d}👦";
    assert_eq!(parts(family), vec![emoji(family)]);
    assert_eq!(parts("🇩🇪"), vec![emoji("🇩🇪")]);
}

#[test]
fn combining_marks_stay_in_text() {
    assert_eq!(parts("a̐éö̲"), vec![text("a̐éö̲")]);
}

#[test]
fn emoji_segment_carries_svg() {
    let segments = Segments::new("🦆");
    let e = segments.as_slice()[0].clone().as_emoji().unwrap();
    assert_eq!(e.emoji(), "🦆");
    assert!(e.svg().contains("<svg"));
    assert!(segments.as_slice()[0].clone().as_text().is_none());
}

#[test]
fn text_segment_accessors() {
    let segments = Segments::new("abc");
    let t = segments.as_slice()[0].clone().as_text().unwrap();
    assert_eq!(t.as_str(), "abc");
    assert!(segments.as_slice()[0].clone().as_emoji().is_none());
}

#[test]
fn emoji_with_extra_mark_is_text() {
    let kiss = [
        "\u{1F468}\u{1F3FB}\u{200D}\u{2764}\u{FE0F}",
        "\u{200D}\u{1F48B}\u{200D}\u{1F468}\u{1F3FB}",
    ]
    .concat();
    assert_eq!(parts(&kiss), vec![emoji(&kiss)]);
    let marked = format!("{kiss}\u{301}");
    assert_eq!(parts(&marked), vec![text(&marked)]);
    let line = format!("a{marked}🦆");
    assert_eq!(parts(&line), vec![text(&format!("a{marked}")), emoji("🦆")]);
}

#[test]
fn classify_given_clusters() {
    let clusters = vec!["a".to_string(), "🦆".to_string(), "b".to_string(), "c".to_string()];
    let segments = Segments::from_clusters(clusters);
    let found: Vec<Part> = segments
        .as_slice()
        .iter()
        .map(|segment| match segment {
            Segment::Text(t) => Part::Text(t.as_str().to_string()),
            Segment::Emoji(e) => Part::Emoji(e.emoji().to_string()),
        })
        .collect();
    assert_eq!(found, vec![text("a"), emoji("🦆"), text("bc")]);
}

//! Quotes, wrapping and alignment.

use nirisaver::text::{
    align, layout_quote, layout_text, parse_quotes, wrap, Align, Content, Measure, Quote,
};

fn measure(width: usize, align: Align) -> Measure {
    Measure { width, align, attribution_prefix: "— ".to_string() }
}

#[test]
fn a_quote_splits_on_its_separator() {
    let quotes = parse_quotes("Be excellent. — Bill\n", " — ");
    assert_eq!(
        quotes,
        vec![Quote { text: "Be excellent.".into(), attribution: Some("Bill".into()) }]
    );
}

#[test]
fn the_separator_is_matched_from_the_right() {
    // A real list has quotations containing the separator. The attribution
    // is the last field, not the second.
    let quotes = parse_quotes("Whether you think you can — you're right. — Henry Ford", " — ");
    assert_eq!(quotes[0].text, "Whether you think you can — you're right.");
    assert_eq!(quotes[0].attribution.as_deref(), Some("Henry Ford"));
}

#[test]
fn the_separator_is_configurable() {
    let quotes = parse_quotes("Words | Someone", " | ");
    assert_eq!(quotes[0].attribution.as_deref(), Some("Someone"));
    let quotes = parse_quotes("Words :: Someone", " :: ");
    assert_eq!(quotes[0].attribution.as_deref(), Some("Someone"));
}

#[test]
fn comments_and_blanks_are_dropped() {
    let quotes = parse_quotes("# heading\n\n  \nOne — A\n# tail\n", " — ");
    assert_eq!(quotes.len(), 1);
}

#[test]
fn a_line_without_a_separator_is_a_quote_with_no_attribution() {
    let quotes = parse_quotes("Just a line", " — ");
    assert_eq!(quotes[0].attribution, None);
}

#[test]
fn an_empty_separator_splits_nothing() {
    let quotes = parse_quotes("  A — B  ", "");
    assert_eq!(quotes, vec![Quote { text: "A — B".into(), attribution: None }]);
}

#[test]
fn an_empty_attribution_is_none() {
    let quotes = parse_quotes("Words |\nMore | ", "|");
    assert_eq!(quotes[0], Quote { text: "Words".into(), attribution: None });
    assert_eq!(quotes[1], Quote { text: "More".into(), attribution: None });
}

#[test]
fn the_attribution_gets_its_own_line() {
    let quote = Quote { text: "Short.".into(), attribution: Some("Someone".into()) };
    let block = layout_quote(&quote, &measure(40, Align::Left));
    assert_eq!(block, "Short.\n\n— Someone");
}

#[test]
fn wrapping_respects_the_measure() {
    let text = "one two three four five six seven eight nine ten";
    for line in wrap(text, 12) {
        assert!(line.chars().count() <= 12, "{line:?} is over the measure");
    }
}

#[test]
fn wrapping_is_greedy() {
    assert_eq!(wrap("one two  three\tfour five", 9), vec!["one two", "three", "four five"]);
    assert_eq!(wrap("", 9), vec![""]);
    assert_eq!(wrap("ab c", 0), vec!["a", "b", "c"]);
}

#[test]
fn wrapping_a_wrapped_line_leaves_it_alone() {
    for line in wrap("one two three four, five-six-seven-eight-nine ten", 11) {
        assert_eq!(wrap(&line, 11), vec![line]);
    }
}

#[test]
fn an_overlong_word_is_broken_rather_than_widening_the_block() {
    let lines = wrap("short verylongunbreakablewordhere", 8);
    assert!(lines.iter().all(|l| l.chars().count() <= 8), "{lines:?}");
    assert_eq!(lines.concat().replace(' ', "").len(), "shortverylongunbreakablewordhere".len());
}

#[test]
fn what_is_left_of_a_broken_word_shares_its_line() {
    assert_eq!(wrap("abcdefghij k lmno", 4), vec!["abcd", "efgh", "ij k", "lmno"]);
}

#[test]
fn centring_pads_only_on_the_left() {
    let block = align(&["ab".into(), "abcd".into()], Align::Center);
    assert_eq!(block, " ab\nabcd");
}

#[test]
fn left_alignment_pads_nothing() {
    let block = align(&["ab".into(), "abcd".into()], Align::Left);
    assert_eq!(block, "ab\nabcd");
}

#[test]
fn a_centred_block_is_no_wider_than_its_measure() {
    let quote = Quote {
        text: "It does not matter how slowly you go as long as you do not stop.".into(),
        attribution: Some("Confucius".into()),
    };
    let block = layout_quote(&quote, &measure(32, Align::Center));
    assert!(block.lines().all(|l| l.chars().count() <= 32), "{block}");
}

#[test]
fn plain_text_keeps_its_own_line_breaks() {
    let block = layout_text("first\n\nthird", &measure(40, Align::Left));
    assert_eq!(block, "first\n\nthird");
}

#[test]
fn plain_text_loses_the_newlines_at_its_end_and_wraps() {
    let block = layout_text("one two\r\n   \nthree four\n\n", &measure(5, Align::Left));
    assert_eq!(block, "one\ntwo\n\nthree\nfour");
    assert_eq!(layout_text("\n\n", &measure(5, Align::Center)), "");
}

/// Draws a number below `n` from a seeded sequence.
fn draw(state: &mut u64, n: usize) -> usize {
    *state = state.wrapping_mul(6364136223846793005).wrapping_add(1442695040888963407);
    ((*state >> 33) % n as u64) as usize
}

#[test]
fn quotes_rotate_with_the_seed() {
    let quotes = Content::Quotes(parse_quotes("a — x\nb — y\nc — z\nd — w", " — "));
    let m = measure(40, Align::Left);
    let mut rng = 1;
    let drawn: Vec<_> =
        (0..8).map(|_| quotes.block(draw(&mut rng, quotes.choices()), &m)).collect();
    let mut same_seed = 1;
    let again: Vec<_> =
        (0..8).map(|_| quotes.block(draw(&mut same_seed, quotes.choices()), &m)).collect();
    assert_eq!(drawn, again, "the same seed must draw the same sequence");
    assert!(drawn.iter().collect::<std::collections::HashSet<_>>().len() > 1);
}

#[test]
fn a_content_is_a_choice_of_blocks() {
    let m = measure(40, Align::Left);
    let quotes = Content::Quotes(parse_quotes("a — x\nb — y\nc — z\nd — w", " — "));
    assert_eq!(quotes.choices(), 4);
    assert_eq!(quotes.block(0, &m), "a\n\n— x");
    assert_eq!(quotes.block(3, &m), "d\n\n— w");
    assert_eq!(quotes.clone(), quotes);
    let text = Content::Text("hello\nthere".into());
    assert_eq!(text.choices(), 0);
    assert_eq!(text.block(7, &m), "hello\nthere");
    assert_eq!(Content::Quotes(vec![]).block(0, &m), "nirisaver");
}

#[test]
fn alignments_have_names() {
    assert_eq!("center".parse(), Ok(Align::Center));
    assert_eq!("centre".parse(), Ok(Align::Center));
    assert_eq!("left".parse(), Ok(Align::Left));
    assert_eq!(Align::default(), Align::Center);
    assert_eq!(
        "ri\"ght".parse::<Align>(),
        Err("unknown alignment \"ri\\\"ght\" (expected center or left)".to_string())
    );
}

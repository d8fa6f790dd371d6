use bizarro::config::{GenerationParams, default_prefix};
use bizarro::filter::accept;

fn params(min_words: usize, include_tag_only: bool) -> GenerationParams {
    GenerationParams { min_words, include_tag_only }
}

#[test]
fn too_short_is_rejected() {
    assert_eq!(accept("ok", &params(2, false)), false);
}

#[test]
fn long_enough_is_accepted() {
    assert_eq!(accept("ok fine", &params(2, false)), true);
}

#[test]
fn bare_mention_rejected_only_with_tag_filter() {
    assert_eq!(accept("<@!1234>", &params(1, true)), false);
    assert_eq!(accept("<@!1234>", &params(1, false)), true);
}

#[test]
fn mention_with_more_words_is_accepted() {
    assert_eq!(accept("<@!1234> hello", &params(1, true)), true);
}

#[test]
fn non_mention_single_token_passes_tag_filter() {
    assert_eq!(accept("hello", &params(1, true)), true);
}

#[test]
fn empty_text_needs_zero_minimum() {
    assert_eq!(accept("", &params(0, true)), true);
    assert_eq!(accept("", &params(1, true)), false);
    assert_eq!(accept("   ", &params(1, false)), false);
}

#[test]
fn defaults_accept_one_word_and_drop_lone_tags() {
    let p = GenerationParams::default();
    assert_eq!(p.min_words, 1);
    assert_eq!(p.include_tag_only, true);
    assert_eq!(accept("hello", &p), true);
    assert_eq!(accept("<@!55>", &p), false);
}

#[test]
fn default_prefix_is_pipe() {
    assert_eq!(default_prefix(), "|".to_string());
}

use bizarro::chain::Chain;
use bizarro::errors::ModelError;

fn words(ws: &[&str]) -> Vec<String> {
    ws.iter().map(|w| w.to_string()).collect()
}

fn count(c: &Chain, prev: &[&str], succ: Option<&str>) -> u64 {
    let p = words(prev);
    let s: Option<String> = succ.map(|x| x.to_string());
    c.transition_count(&p, s.as_ref())
}

#[test]
fn untrained_chain_fails_with_empty_model() {
    let c = Chain::new(1);
    assert!(!c.is_ready());
    assert_eq!(c.generate_one().unwrap_err(), ModelError::EmptyModel);
}

#[test]
fn whitespace_only_feed_is_a_no_op() {
    let mut c = Chain::new(1);
    c.feed("   \t  \n ");
    assert!(!c.is_ready());
    assert!(c.is_untrained());
    assert_eq!(c.generate_one().unwrap_err(), ModelError::EmptyModel);
}

#[test]
fn feed_records_every_window() {
    let mut c = Chain::new(1);
    c.feed("hello world");
    assert_eq!(count(&c, &[], Some("hello")), 1);
    assert_eq!(count(&c, &["hello"], Some("world")), 1);
    assert_eq!(count(&c, &["world"], None), 1);
    assert_eq!(count(&c, &[], Some("world")), 0);
    assert_eq!(count(&c, &["hello"], None), 0);
}

#[test]
fn feeding_twice_doubles_every_touched_count() {
    let mut c = Chain::new(1);
    c.feed("a b a");
    assert_eq!(count(&c, &[], Some("a")), 1);
    assert_eq!(count(&c, &["a"], Some("b")), 1);
    assert_eq!(count(&c, &["b"], Some("a")), 1);
    assert_eq!(count(&c, &["a"], None), 1);
    c.feed("a b a");
    assert_eq!(count(&c, &[], Some("a")), 2);
    assert_eq!(count(&c, &["a"], Some("b")), 2);
    assert_eq!(count(&c, &["b"], Some("a")), 2);
    assert_eq!(count(&c, &["a"], None), 2);
}

#[test]
fn repeated_transition_counts_within_one_text() {
    let mut c = Chain::new(1);
    c.feed("x x x");
    assert_eq!(count(&c, &["x"], Some("x")), 2);
    assert_eq!(count(&c, &[], Some("x")), 1);
    assert_eq!(count(&c, &["x"], None), 1);
}

#[test]
fn order_two_uses_two_token_contexts() {
    let mut c = Chain::new(2);
    c.feed("a b c");
    assert_eq!(count(&c, &[], Some("a")), 1);
    assert_eq!(count(&c, &["a"], Some("b")), 1);
    assert_eq!(count(&c, &["a", "b"], Some("c")), 1);
    assert_eq!(count(&c, &["b", "c"], None), 1);
    assert_eq!(count(&c, &["b"], Some("c")), 0);
}

#[test]
fn generation_starts_with_the_only_observed_first_token() {
    let mut c = Chain::new(1);
    c.feed("hello world");
    c.feed("hello there");
    for _ in 0..200 {
        let t = c.generate_one().unwrap();
        // With these feeds the maximal samples are exactly the two texts.
        assert!(t == "hello world" || t == "hello there");
    }
}

#[test]
fn both_observed_successors_eventually_appear() {
    let mut c = Chain::new(1);
    c.feed("hello world");
    c.feed("hello there");
    let mut saw_world = false;
    let mut saw_there = false;
    for _ in 0..400 {
        let t = c.generate_one().unwrap();
        let toks: Vec<&str> = t.split(' ').collect();
        if toks.len() > 1 {
            if toks[1] == "world" {
                saw_world = true;
            }
            if toks[1] == "there" {
                saw_there = true;
            }
        }
    }
    assert!(saw_world && saw_there);
}

#[test]
fn high_count_successors_are_drawn_more_often() {
    let mut c = Chain::new(1);
    for _ in 0..9 {
        c.feed("a b");
    }
    c.feed("a c");
    let mut b_count = 0u32;
    let mut c_count = 0u32;
    for _ in 0..500 {
        let t = c.generate_one().unwrap();
        let toks: Vec<&str> = t.split(' ').collect();
        assert_eq!(toks[0], "a");
        if toks.len() > 1 {
            if toks[1] == "b" {
                b_count += 1;
            } else if toks[1] == "c" {
                c_count += 1;
            }
        }
    }
    assert!(b_count > c_count);
}

#[test]
fn generation_terminates_within_the_step_bound_on_cyclic_data() {
    let mut c = Chain::new(1);
    // A model with no way to reach the end sentinel from "b": "a" always
    // leads to "b" and "b" always back to "a", except one escape via the
    // fed text's end.
    c.feed("a b a b a b a b a b a b a b a b a b a b a b a b a b a b a b");
    for _ in 0..50 {
        let t = c.generate_one().unwrap();
        let toks: Vec<&str> = t.split(' ').collect();
        assert!(toks.len() <= 512);
    }
}

#[test]
fn generate_n_returns_the_requested_number() {
    let mut c = Chain::new(1);
    c.feed("one two three");
    let v = c.generate_n(5).unwrap();
    assert_eq!(v.len(), 5);
    let empty = Chain::new(1);
    assert_eq!(empty.generate_n(3).unwrap_err(), ModelError::EmptyModel);
}

#[test]
fn tokenization_splits_on_any_ascii_whitespace() {
    let mut c = Chain::new(1);
    c.feed("a\tb\nc\r d");
    assert_eq!(count(&c, &["a"], Some("b")), 1);
    assert_eq!(count(&c, &["b"], Some("c")), 1);
    assert_eq!(count(&c, &["c"], Some("d")), 1);
    assert_eq!(count(&c, &["d"], None), 1);
}

#[test]
fn leading_and_trailing_whitespace_is_ignored() {
    let mut c = Chain::new(1);
    c.feed("   hello   world   ");
    assert_eq!(count(&c, &[], Some("hello")), 1);
    assert_eq!(count(&c, &["hello"], Some("world")), 1);
    assert_eq!(count(&c, &["world"], None), 1);
}

#[test]
fn order_two_generation_follows_pair_contexts() {
    let mut c = Chain::new(2);
    c.feed("one two three");
    for _ in 0..20 {
        let t = c.generate_one().unwrap();
        assert_eq!(t, "one two three");
    }
}

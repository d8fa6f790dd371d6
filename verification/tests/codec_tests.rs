use bizarro::chain::Chain;
use bizarro::errors::ModelError;

fn words(ws: &[&str]) -> Vec<String> {
    ws.iter().map(|w| w.to_string()).collect()
}

fn count(c: &Chain, prev: &[&str], succ: Option<&str>) -> u64 {
    let p = words(prev);
    let s: Option<String> = succ.map(|x| x.to_string());
    c.transition_count(&p, s.as_ref())
}

#[test]
fn save_then_load_restores_the_exact_table() {
    let mut c = Chain::new(1);
    c.feed("the quick brown fox");
    c.feed("the quick red fox");
    c.feed("a lazy dog");
    let bytes = c.save();
    let c2 = Chain::load(&bytes).unwrap();
    assert_eq!(c2.order(), 1);
    assert_eq!(count(&c2, &[], Some("the")), 2);
    assert_eq!(count(&c2, &[], Some("a")), 1);
    assert_eq!(count(&c2, &["the"], Some("quick")), 2);
    assert_eq!(count(&c2, &["quick"], Some("brown")), 1);
    assert_eq!(count(&c2, &["quick"], Some("red")), 1);
    assert_eq!(count(&c2, &["fox"], None), 2);
    assert_eq!(count(&c2, &["dog"], None), 1);
    // The decoded chain encodes back to the identical image.
    assert_eq!(c2.save(), bytes);
}

#[test]
fn empty_chain_round_trips() {
    let c = Chain::new(3);
    let bytes = c.save();
    let c2 = Chain::load(&bytes).unwrap();
    assert_eq!(c2.order(), 3);
    assert!(!c2.is_ready());
    assert_eq!(c2.save(), bytes);
}

#[test]
fn unicode_tokens_round_trip() {
    let mut c = Chain::new(1);
    c.feed("grüße aus münchen");
    let bytes = c.save();
    let c2 = Chain::load(&bytes).unwrap();
    assert_eq!(count(&c2, &["grüße"], Some("aus")), 1);
    assert_eq!(count(&c2, &["aus"], Some("münchen")), 1);
    assert_eq!(c2.save(), bytes);
}

#[test]
fn garbage_bytes_are_refused() {
    assert_eq!(Chain::load(&vec![]).unwrap_err(), ModelError::IoError);
    assert_eq!(Chain::load(&vec![1, 2, 3]).unwrap_err(), ModelError::IoError);
}

#[test]
fn truncated_image_is_refused() {
    let mut c = Chain::new(1);
    c.feed("hello world");
    let mut bytes = c.save();
    bytes.pop();
    assert_eq!(Chain::load(&bytes).unwrap_err(), ModelError::IoError);
}

#[test]
fn trailing_bytes_are_refused() {
    let mut c = Chain::new(1);
    c.feed("hello world");
    let mut bytes = c.save();
    bytes.push(0);
    assert_eq!(Chain::load(&bytes).unwrap_err(), ModelError::IoError);
}

#[test]
fn zero_order_image_is_refused() {
    // A syntactically empty chain of order zero: the order field is
    // validated before anything else.
    let mut bytes = vec![0u8; 16];
    assert_eq!(Chain::load(&bytes).unwrap_err(), ModelError::IoError);
    // Order one with zero rows is fine.
    bytes[0] = 1;
    let c = Chain::load(&bytes).unwrap();
    assert_eq!(c.order(), 1);
}

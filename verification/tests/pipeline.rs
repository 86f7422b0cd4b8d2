use raa::analysis::Arena;
use raa::analysis::Chain;
use raa::analysis::Source;
use raa::nodes::Chainable;
use raa::nodes::FFT;
use raa::nodes::RMS;

#[test]
fn arena_handles_strictly_increase() {
    // Handles from successive registrations are strictly increasing and
    // never repeat, even after earlier handles are removed.
    let mut arena = Arena::new();
    let a = arena.add_sourcable(Source::new(0, vec![0]));
    let b = arena.add_chainable(Chainable::RMS(RMS::new()));
    let c = arena.add_sourcable(Source::new(1, vec![1]));
    assert!(a < b && b < c);
    arena.remove_sourcable(a);
    arena.remove_chainable(b);
    let d = arena.add_sourcable(Source::new(2, vec![0]));
    let e = arena.add_chainable(Chainable::FFT(FFT::new()));
    assert!(c < d && d < e);
    assert_eq!(vec![a, b, c, d, e], vec![0, 1, 2, 3, 4]);
}

#[test]
fn arena_remove_is_idempotent() {
    let mut arena = Arena::new();
    let a = arena.add_sourcable(Source::new(0, vec![]));
    arena.remove_sourcable(a);
    arena.remove_sourcable(a);
    arena.remove_chainable(999);
    let b = arena.add_sourcable(Source::new(0, vec![]));
    assert_eq!(b, 1);
}

#[test]
fn arena_source_errors_are_collected_once() {
    let mut arena = Arena::new();
    let id = arena.add_sourcable(Source::new(0, vec![0]));
    assert_eq!(arena.take_source_error(id), None);
    arena.set_source_error(id, b"backend died".to_vec());
    assert_eq!(arena.take_source_error(id), Some(b"backend died".to_vec()));
    assert_eq!(arena.take_source_error(id), None);
    assert_eq!(arena.take_source_error(77), None);
}

#[test]
fn source_lifecycle() {
    let mut src = Source::new(4, vec![0, 1]);
    assert!(!src.is_active());
    assert_eq!(src.device(), 4);
    assert_eq!(src.channels(), &vec![0u32, 1]);
    src.start();
    assert!(src.is_active());
    src.stop();
    src.stop();
    assert!(!src.is_active());
    assert_eq!(src.get_and_clear_error(), None);
    src.set_error(b"boom".to_vec());
    assert_eq!(src.get_and_clear_error(), Some(b"boom".to_vec()));
    assert_eq!(src.get_and_clear_error(), None);
}

#[test]
fn chain_start_needs_a_source() {
    let mut arena = Arena::new();
    let mut chain = Chain::new();
    assert!(!chain.start(&mut arena));
    assert!(!chain.is_running());
    // A handle the arena does not hold fails gracefully too.
    chain.set_source(12);
    assert!(!chain.start(&mut arena));
    assert!(!chain.is_running());
}

#[test]
fn chain_start_marks_running() {
    let mut arena = Arena::new();
    let sid = arena.add_sourcable(Source::new(0, vec![0]));
    let nid = arena.add_chainable(Chainable::RMS(RMS::new()));
    let mut chain = Chain::new();
    chain.set_source(sid);
    chain.add_node(nid);
    assert!(chain.start(&mut arena));
    assert!(chain.is_running());
    assert_eq!(chain.get_source(), Some(sid));
    chain.stop();
    assert!(!chain.is_running());
}

#[test]
fn chain_delivers_in_insertion_order() {
    // Two level nodes hear the same buffer; a spectrum node in the middle
    // hands its window out through the delivery result.
    let mut arena = Arena::new();
    let n1 = arena.add_chainable(Chainable::RMS(RMS::new()));
    let n2 = arena.add_chainable(Chainable::FFT(FFT::new()));
    let n3 = arena.add_chainable(Chainable::RMS(RMS::new()));
    let mut chain = Chain::new();
    chain.add_node(n1);
    chain.add_node(n2);
    chain.add_node(n3);
    let requests = chain.source_cb(&mut arena, &vec![vec![8; 100]], 3200);
    assert_eq!(requests.len(), 1);
    assert_eq!(requests[0].0, n2);
    assert_eq!(requests[0].1, vec![8; 100]);
    assert_eq!(arena.node_output(n1), Some(&vec![8i64]));
    assert_eq!(arena.node_output(n3), Some(&vec![8i64]));
    // The transformed window comes back through the arena.
    arena.store_node_spectrum(n2, vec![800, 0, 0]);
    assert_eq!(arena.node_output(n2), Some(&vec![800i64, 0, 0]));
}

#[test]
fn chain_skips_missing_nodes() {
    let mut arena = Arena::new();
    let n1 = arena.add_chainable(Chainable::RMS(RMS::new()));
    let mut chain = Chain::new();
    chain.add_node(n1);
    arena.remove_chainable(n1);
    let requests = chain.source_cb(&mut arena, &vec![vec![1, 1]], 44100);
    assert!(requests.is_empty());
    assert_eq!(arena.node_output(n1), None);
}

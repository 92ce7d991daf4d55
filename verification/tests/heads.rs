use lattice_core::head::{
    add_head, load_heads, lww, lww_head, pick_winner, sort_heads, store_heads, Head, HeadError,
    StoredError,
};
use lattice_core::hlc::HLC;
use lattice_core::message::encode;
use lattice_core::proto::storage::{HeadInfo, HeadList, Hlc};

fn head(value: &[u8], time: u64, author: u8, hash: u8, tombstone: bool) -> Head {
    Head {
        value: value.to_vec(),
        hlc: HLC { wall_time: time, counter: 0 },
        author: [author; 32],
        hash: [hash; 32],
        tombstone,
    }
}

#[test]
fn the_winner_does_not_depend_on_the_order() {
    let a = head(b"a", 10, 1, 1, false);
    let b = head(b"b", 20, 1, 2, false);
    let c = head(b"c", 20, 2, 3, false);
    let one = vec![a.clone(), b.clone(), c.clone()];
    let two = vec![c.clone(), a.clone(), b.clone()];
    // The latest time wins; of two that are equal, the greater author.
    assert_eq!(pick_winner(&one), Some(&c));
    assert_eq!(pick_winner(&two), Some(&c));
    assert_eq!(pick_winner(&[]), None);
    assert!(c.outranks(&b));
    assert!(!b.outranks(&c));
    assert!(!b.outranks(&b));
    let sorted = sort_heads(one);
    assert_eq!(sorted, sort_heads(two));
    assert_eq!(sorted[0], c);
    assert_eq!(sorted[1], b);
    assert_eq!(sorted[2], a);
}

#[test]
fn the_counter_breaks_a_tie_of_times() {
    let mut late = head(b"late", 10, 1, 1, false);
    late.hlc.counter = 5;
    let early = head(b"early", 10, 9, 2, false);
    assert_eq!(pick_winner(&[early.clone(), late.clone()]).unwrap().value, b"late");
    assert!(late.outranks(&early));
}

#[test]
fn a_deletion_wins_like_a_value() {
    let value = head(b"v", 10, 1, 1, false);
    let gone = head(b"", 20, 1, 2, true);
    assert_eq!(lww(&[value.clone(), gone.clone()]), None);
    assert!(lww_head(&[value.clone(), gone.clone()]).is_none());
    assert_eq!(lww(&[value.clone()]), Some(b"v".to_vec()));
    let later = head(b"again", 30, 1, 3, false);
    assert_eq!(lww(&[value, gone, later]), Some(b"again".to_vec()));
}

#[test]
fn a_head_takes_the_place_of_its_parents() {
    let a = head(b"a", 10, 1, 1, false);
    let b = head(b"b", 20, 2, 2, false);
    // A concurrent head is kept beside the others.
    let both = add_head(vec![a.clone()], b.clone(), &vec![]);
    assert_eq!(both.len(), 2);
    // A head that names one parent leaves the other.
    let c = head(b"c", 30, 3, 3, false);
    let left = add_head(both.clone(), c.clone(), &vec![a.hash]);
    assert_eq!(left, vec![b.clone(), c.clone()]);
    // A head that names all parents is the only one.
    let merged = add_head(both.clone(), c.clone(), &vec![a.hash, b.hash]);
    assert_eq!(merged, vec![c.clone()]);
    // The same head is not added twice.
    assert_eq!(add_head(merged.clone(), c.clone(), &vec![a.hash]), merged);
}

#[test]
fn stored_heads_are_read_back() {
    let heads = vec![head(b"a", 10, 1, 1, false), head(b"", 20, 2, 2, true)];
    assert_eq!(load_heads(&store_heads(&heads)).unwrap(), heads);
    assert_eq!(load_heads(&[]).unwrap(), vec![]);
}

#[test]
fn faulty_heads_are_reported() {
    assert!(matches!(load_heads(&[0xFF]), Err(StoredError::Decode(_))));

    let good = head(b"a", 10, 1, 1, false).to_info();
    let mut author = good.clone();
    author.author = vec![1, 2];
    assert!(matches!(Head::from_info(author), Err(HeadError::InvalidAuthor(_))));
    let mut hash = good.clone();
    hash.hash = vec![];
    assert!(matches!(Head::from_info(hash.clone()), Err(HeadError::InvalidHash(_))));
    let mut hlc = good.clone();
    hlc.hlc = None;
    assert_eq!(Head::from_info(hlc.clone()), Err(HeadError::InvalidHlc));
    assert_eq!(HeadError::InvalidHlc.to_string(), "Invalid HLC in HeadInfo");

    let stored = encode(&HeadList { heads: vec![good.clone(), hlc] });
    match load_heads(&stored) {
        Err(StoredError::Conversion(why)) => assert_eq!(why, "Invalid HLC in HeadInfo"),
        other => panic!("expected a conversion error, got {:?}", other),
    }
    assert_eq!(Head::from_info(good).unwrap(), head(b"a", 10, 1, 1, false));
}

#[test]
fn a_head_message_holds_the_parts_of_the_head() {
    let info = head(b"a", 10, 1, 2, false).to_info();
    assert_eq!(
        info,
        HeadInfo {
            value: b"a".to_vec(),
            hlc: Some(Hlc { wall_time: 10, counter: 0 }),
            author: vec![1u8; 32],
            hash: vec![2u8; 32],
            tombstone: false,
        }
    );
}

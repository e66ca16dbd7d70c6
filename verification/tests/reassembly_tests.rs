//! Fragmentation and reassembly: any delivery order, duplicates, and
//! the drop-entire-entry policy.

use backend::codec::{decode_message, encode_message};
use backend::message::{Message, Request};
use backend::message_constructor::{fragment_message, MessageConstructor};
use backend::packet::{Fragment, FRAGMENT_DSIZE};

fn two_kb_message() -> Message {
    let mut text = String::new();
    while text.len() < 2048 {
        text.push_str("0123456789abcdef");
    }
    Message::Request(Request::WritePublicFile(String::from("big.txt"), text))
}

#[test]
fn fragments_carry_index_total_and_length() {
    let m = Message::Request(Request::CreateChat(String::from("room")));
    let data = encode_message(&m);
    let fragments = fragment_message(&data);
    let expected_total = (data.len() + FRAGMENT_DSIZE - 1) / FRAGMENT_DSIZE;
    assert_eq!(fragments.len(), expected_total);
    for (i, f) in fragments.iter().enumerate() {
        assert_eq!(f.fragment_index, i as u64);
        assert_eq!(f.total_n_fragments, expected_total as u64);
        assert_eq!(f.data.len(), FRAGMENT_DSIZE);
    }
    let last = &fragments[fragments.len() - 1];
    assert_eq!(last.length as usize, data.len() - (fragments.len() - 1) * FRAGMENT_DSIZE);
}

fn deliver_all(fragments: Vec<Fragment>, order: &[usize]) -> Option<Vec<u8>> {
    let total = fragments[0].total_n_fragments;
    let mut ctor = MessageConstructor::new(total);
    let mut emitted = None;
    for &i in order {
        let f = &fragments[i];
        let copy = Fragment {
            fragment_index: f.fragment_index,
            total_n_fragments: f.total_n_fragments,
            length: f.length,
            data: f.data.clone(),
        };
        match ctor.add_packet(copy) {
            Ok(Some(buffer)) => {
                assert!(emitted.is_none(), "a buffer must be emitted only once");
                emitted = Some(buffer);
            }
            Ok(None) => {}
            Err(()) => panic!("in-range fragments must be accepted"),
        }
    }
    emitted
}

#[test]
fn in_order_delivery_reassembles() {
    let m = two_kb_message();
    let data = encode_message(&m);
    let fragments = fragment_message(&data);
    let order: Vec<usize> = (0..fragments.len()).collect();
    let buffer = deliver_all(fragments, &order).expect("all fragments arrived");
    assert_eq!(&buffer[0..data.len()], &data[..]);
    assert_eq!(decode_message(buffer.as_slice()), Some(m));
}

#[test]
fn reversed_delivery_reassembles() {
    let m = two_kb_message();
    let data = encode_message(&m);
    let fragments = fragment_message(&data);
    let order: Vec<usize> = (0..fragments.len()).rev().collect();
    let buffer = deliver_all(fragments, &order).expect("all fragments arrived");
    assert_eq!(decode_message(buffer.as_slice()), Some(m));
}

#[test]
fn shuffled_delivery_reassembles() {
    let m = two_kb_message();
    let data = encode_message(&m);
    let fragments = fragment_message(&data);
    let n = fragments.len();
    // a fixed permutation: odd indices first, then even ones
    let mut order: Vec<usize> = (0..n).filter(|i| i % 2 == 1).collect();
    order.extend((0..n).filter(|i| i % 2 == 0));
    let buffer = deliver_all(fragments, &order).expect("all fragments arrived");
    assert_eq!(decode_message(buffer.as_slice()), Some(m));
}

#[test]
fn duplicate_fragments_overwrite_and_deliver_once() {
    let m = two_kb_message();
    let data = encode_message(&m);
    let fragments = fragment_message(&data);
    let n = fragments.len();
    // every fragment arrives twice, all duplicates before completion
    let mut order: Vec<usize> = (0..n - 1).collect();
    order.extend(0..n - 1);
    order.push(n - 1);
    let buffer = deliver_all(fragments, &order).expect("all fragments arrived");
    assert_eq!(decode_message(buffer.as_slice()), Some(m));
}

#[test]
fn out_of_range_index_is_an_error() {
    let mut ctor = MessageConstructor::new(2);
    let bad = Fragment {
        fragment_index: 2,
        total_n_fragments: 2,
        length: 1,
        data: vec![0u8; FRAGMENT_DSIZE],
    };
    assert!(ctor.add_packet(bad).is_err());
}

#[test]
fn incomplete_entry_emits_nothing() {
    let m = two_kb_message();
    let data = encode_message(&m);
    let fragments = fragment_message(&data);
    let total = fragments[0].total_n_fragments;
    let mut ctor = MessageConstructor::new(total);
    for f in fragments.into_iter().skip(1) {
        assert_eq!(ctor.add_packet(f), Ok(None));
    }
}

use bytes::Bytes;
use pilota::buffer::BufferChain;

#[test]
fn chain_orders_owned_and_zero_copy_segments() {
    let mut chain = BufferChain::new();
    assert_eq!(chain.current_length(), 0);
    chain.append_owned(&[1, 2]);
    chain.append_zero_copy(Bytes::from(vec![3u8, 4, 5]));
    chain.append_owned(&[6]);
    assert_eq!(chain.current_length(), 6);
    assert_eq!(chain.copied_length(), 3);
    let mut out: Vec<u8> = Vec::new();
    chain.finalize(&mut out);
    assert_eq!(out, vec![1, 2, 3, 4, 5, 6]);
}

#[test]
fn reserve_changes_nothing() {
    let mut chain = BufferChain::new();
    chain.append_owned(&[9]);
    chain.reserve(1024);
    assert_eq!(chain.current_length(), 1);
    let mut out: Vec<u8> = Vec::new();
    chain.finalize(&mut out);
    assert_eq!(out, vec![9]);
}

#[test]
fn finalize_appends_to_the_sink() {
    let mut chain = BufferChain::new();
    chain.append_zero_copy(Bytes::from(vec![7u8, 8]));
    let mut out: Vec<u8> = vec![0];
    chain.finalize(&mut out);
    assert_eq!(out, vec![0, 7, 8]);
}

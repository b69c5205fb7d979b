use std::cell::RefCell;
use sit_core::encoding::Encoding;
use sit_core::hash::HashingAlgorithm;

#[test]
fn blake2() {
    let algo = HashingAlgorithm::Blake2b { size: 20 };
    let mut hasher = algo.hasher();
    hasher.process(b"test");
    hasher.process(b"that");
    // b2sum -l 160 of "testthat": ef9ebcc4562d63642ef13cabe77a33a6994ead7f
    assert_eq!(hasher.result_box(), vec![239, 158, 188, 196, 86, 45, 99, 100, 46, 241, 60, 171, 231, 122, 51, 166, 153, 78, 173, 127]);
}

#[test]
fn sha1() {
    let algo = HashingAlgorithm::SHA1;
    let mut hasher = algo.hasher();
    hasher.process(b"test");
    hasher.process(b"that");
    // sha1sum of "testthat": 294863232e30c5580ee9410b7c35a2c6d3b6ceb3
    assert_eq!(hasher.result_box(), vec![41, 72, 99, 35, 46, 48, 197, 88, 14, 233, 65, 11, 124, 53, 162, 198, 211, 182, 206, 179]);
}

#[test]
fn hashing_in_pieces_equals_hashing_at_once() {
    let algo = HashingAlgorithm::SHA1;
    let mut whole = algo.hasher();
    whole.process(b"testthat");
    let mut pieces = algo.hasher();
    pieces.process(b"te");
    pieces.process(b"");
    pieces.process(b"stthat");
    assert_eq!(whole.result(), pieces.result());
}

#[test]
fn default_algorithm_is_blake2b_of_twenty_bytes() {
    let algo = HashingAlgorithm::default_algorithm();
    assert_eq!(algo, HashingAlgorithm::Blake2b { size: 20 });
    assert_eq!(algo.len(), 20);
    assert_eq!(HashingAlgorithm::SHA1.len(), 20);
    assert_eq!(HashingAlgorithm::Blake2b { size: 32 }.len(), 32);
    let mut h = HashingAlgorithm::Blake2b { size: 32 }.hasher();
    h.process(b"x");
    assert_eq!(h.result().len(), 32);
}

#[test]
fn base32_encoding_round_trip() {
    let e = Encoding::default_encoding();
    assert_eq!(e, Encoding::Base32);
    assert_eq!(e.bit_width(), 5);
    assert_eq!(e.encode(b"foobar"), "MZXW6YTBOI======");
    assert_eq!(e.decode("MZXW6YTBOI======"), Some(b"foobar".to_vec()));
    assert_eq!(e.encode(b""), "");
    assert_eq!(e.decode("not base32!"), None);
    let data = vec![0u8, 1, 2, 250, 251, 252];
    assert_eq!(e.decode(&e.encode(&data)), Some(data));
}

#[test]
fn files_are_handed_on_as_they_are_hashed() {
    let files = sit_core::record::OrderedFiles::from(vec![
        sit_core::record::File::new("b".to_string(), b"y".to_vec()),
        sit_core::record::File::new("a".to_string(), b"x".to_vec()),
    ]);
    let names: RefCell<Vec<String>> = RefCell::new(vec![]);
    let chunks: RefCell<Vec<Vec<u8>>> = RefCell::new(vec![]);
    let mut hasher = HashingAlgorithm::SHA1.hasher();
    let r: Result<(), ()> = files.hash_and(
        &mut hasher,
        |n: &str| {
            names.borrow_mut().push(n.to_string());
            Ok(0usize)
        },
        |v: usize, c: &[u8]| {
            chunks.borrow_mut().push(c.to_vec());
            Ok(v + 1)
        },
    );
    assert!(r.is_ok());
    assert_eq!(*names.borrow(), vec!["a".to_string(), "b".to_string()]);
    assert_eq!(*chunks.borrow(), vec![b"x".to_vec(), vec![], b"y".to_vec(), vec![]]);
}

#[test]
fn the_first_callback_error_stops_hashing() {
    let files = sit_core::record::OrderedFiles::from(vec![
        sit_core::record::File::new("a".to_string(), b"x".to_vec()),
        sit_core::record::File::new("b".to_string(), b"y".to_vec()),
        sit_core::record::File::new("c".to_string(), b"z".to_vec()),
    ]);
    let chunks: RefCell<Vec<Vec<u8>>> = RefCell::new(vec![]);
    let mut hasher = HashingAlgorithm::SHA1.hasher();
    let r = files.hash_and(
        &mut hasher,
        |n: &str| if n == "b" { Err(format!("refused {}", n)) } else { Ok(()) },
        |v: (), c: &[u8]| {
            chunks.borrow_mut().push(c.to_vec());
            Ok(v)
        },
    );
    assert_eq!(r, Err("refused b".to_string()));
    // only the first file was read; nothing after the failure
    assert_eq!(*chunks.borrow(), vec![b"x".to_vec(), vec![]]);
    // the hasher was fed the first file and the failing file's name
    let mut expected = HashingAlgorithm::SHA1.hasher();
    expected.process(b"a");
    let mut buf = vec![0u8; 4096];
    buf[0] = b'x';
    expected.process(&buf);
    expected.process(&buf);
    expected.process(b"b");
    assert_eq!(hasher.result(), expected.result());
}

#[test]
fn chunks_are_at_most_a_buffer_long() {
    let content: Vec<u8> = (0..10000u32).map(|i| (i % 251) as u8).collect();
    let files = sit_core::record::OrderedFiles::from(vec![sit_core::record::File::new("big".to_string(), content.clone())]);
    let chunks: RefCell<Vec<Vec<u8>>> = RefCell::new(vec![]);
    let mut hasher = HashingAlgorithm::SHA1.hasher();
    let r: Result<(), ()> = files.hash_and(&mut hasher, |_n: &str| Ok(()), |v: (), c: &[u8]| {
        chunks.borrow_mut().push(c.to_vec());
        Ok(v)
    });
    assert!(r.is_ok());
    let lens: Vec<usize> = chunks.borrow().iter().map(|c| c.len()).collect();
    assert_eq!(lens, vec![4096, 4096, 1808, 0]);
    assert_eq!(chunks.borrow().concat(), content);
}

#[test]
fn hashing_ignores_the_order_files_are_given_in() {
    let one = sit_core::record::OrderedFiles::from(vec![
        sit_core::record::File::new("z/a".to_string(), vec![2]),
        sit_core::record::File::new("test".to_string(), vec![1]),
    ]);
    let two = sit_core::record::OrderedFiles::from(vec![
        sit_core::record::File::new("test".to_string(), vec![1]),
        sit_core::record::File::new("z/a".to_string(), vec![2]),
    ]);
    let mut h1 = HashingAlgorithm::default_algorithm().hasher();
    let mut h2 = HashingAlgorithm::default_algorithm().hasher();
    one.hash(&mut h1);
    two.hash(&mut h2);
    assert_eq!(h1.result_box(), h2.result_box());
}

use std::collections::{BTreeSet, HashMap, HashSet, VecDeque};
use std::hash::Hash;
use std::fmt::Debug;

use ya_binary_format::{from_bytes, to_bytes, ByteCursor, ByteWriter, FromBytes, ToBytes};

fn encode_decode<T: ToBytes + FromBytes + Debug + PartialEq>(t: &T) {
    let mut b = Vec::new();
    t.to_bytes(&mut b);
    let mut b = ByteCursor::new(&b);
    let v = T::from_bytes(&mut b).expect("decodes");
    assert_eq!(b.remaining(), 0, "{:?}", v);
    assert_eq!(t, &v);
}

// Sets travel as the sequence of their elements and maps as the sequence of
// their pairs: the same bytes as a count followed by the items.
fn encode_decode_set<T: ToBytes + FromBytes + Debug + Eq + Hash + Clone>(s: &HashSet<T>) {
    let items: Vec<T> = s.iter().cloned().collect();
    let b = to_bytes(&items);
    let mut c = ByteCursor::new(&b);
    let back = Vec::<T>::from_bytes(&mut c).expect("decodes");
    assert_eq!(c.remaining(), 0);
    let back: HashSet<T> = back.into_iter().collect();
    assert_eq!(s, &back);
}

fn encode_decode_btree_set<T: ToBytes + FromBytes + Debug + Ord + Clone>(s: &BTreeSet<T>) {
    let items: Vec<T> = s.iter().cloned().collect();
    let b = to_bytes(&items);
    let mut c = ByteCursor::new(&b);
    let back = Vec::<T>::from_bytes(&mut c).expect("decodes");
    assert_eq!(c.remaining(), 0);
    let back: BTreeSet<T> = back.into_iter().collect();
    assert_eq!(s, &back);
}

fn encode_decode_map<K, V>(m: &HashMap<K, V>)
where
    K: ToBytes + FromBytes + Debug + Eq + Hash + Clone,
    V: ToBytes + FromBytes + Debug + PartialEq + Clone,
{
    let pairs: Vec<(K, V)> = m.iter().map(|(k, v)| (k.clone(), v.clone())).collect();
    let b = to_bytes(&pairs);
    let mut c = ByteCursor::new(&b);
    let back = Vec::<(K, V)>::from_bytes(&mut c).expect("decodes");
    assert_eq!(c.remaining(), 0);
    let back: HashMap<K, V> = back.into_iter().collect();
    assert_eq!(m, &back);
}

#[test]
fn test_num() {
    encode_decode(&0_u8);
    encode_decode(&1_u8);
    encode_decode(&255_u8);
    encode_decode(&0_i8);
    encode_decode(&1_i8);
    encode_decode(&-2_i8);
    encode_decode(&127_i8);
    encode_decode(&-128_i8);

    for i in 0..300_usize {
        encode_decode(&i);
    }
    encode_decode(&((1_usize << 32) - 1));
    encode_decode(&(1_usize << 32));
    encode_decode(&((1_usize << 32) + 1));

    encode_decode(&12345_u16);
    encode_decode(&-12345_i16);
    encode_decode(&u32::MAX);
    encode_decode(&i32::MIN);
    encode_decode(&u64::MAX);
    encode_decode(&i64::MIN);
    encode_decode(&u128::MAX);
    encode_decode(&i128::MIN);
}

#[test]
fn test_collections() {
    encode_decode(&Vec::<usize>::new());
    encode_decode(&vec![1u8, 2, 3]);

    encode_decode_set(&HashSet::<i32>::new());
    let s = {
        let mut s = HashSet::new();
        s.insert(1);
        s.insert(2);
        s
    };
    encode_decode_set(&s);

    encode_decode_map(&HashMap::<i32, String>::new());
    let m = {
        let mut m = HashMap::new();
        m.insert(1, String::from("a"));
        m.insert(2, String::from("b"));
        m.insert(3, String::from("c"));
    };
    encode_decode(&m);

    encode_decode_btree_set(&BTreeSet::<String>::new());
    let s = {
        let mut s = BTreeSet::new();
        s.insert(1);
        s.insert(2);
        s
    };
    encode_decode_btree_set(&s);
}

#[test]
fn deque_and_pairs() {
    encode_decode(&VecDeque::<i32>::new());
    let d: VecDeque<i32> = VecDeque::from(vec![1, 2]);
    encode_decode(&d);
    assert_eq!(to_bytes(&d), to_bytes(&vec![1i32, 2]));
    encode_decode(&vec![String::from("a"), String::from("b"), String::from("c")]);
    let mut m = HashMap::new();
    m.insert(1i32, String::from("a"));
    m.insert(2i32, String::from("b"));
    encode_decode_map(&m);
    let pairs = vec![(1u8, String::from("a"))];
    assert_eq!(to_bytes(&pairs), vec![1, 1, 1, b'a']);
}

#[test]
fn test_tuple() {
    encode_decode(&());
    encode_decode(&(1i8,));
    encode_decode(&(1i8, 10u32));
    encode_decode(&(1i8, 10u32, 100usize));
    encode_decode(&(1i8, 10u32, 100usize, -10i128));
}

#[test]
fn size_tiers() {
    let cases: Vec<(usize, usize)> = vec![
        (0, 1),
        (1, 1),
        (253, 1),
        (254, 5),
        (255, 5),
        (256, 5),
        ((1 << 32) - 1, 5),
        (1 << 32, 9),
        ((1 << 32) + 1, 9),
    ];
    for n in 0..=256_usize {
        let width = if n < 254 { 1 } else { 5 };
        let b = to_bytes(&n);
        assert_eq!(b.len(), width, "{}", n);
        assert_eq!(from_bytes::<usize>(&b), Some(n));
    }
    for (n, width) in cases {
        let b = to_bytes(&n);
        assert_eq!(b.len(), width, "{}", n);
        if width == 5 {
            assert_eq!(b[0], 254);
        }
        if width == 9 {
            assert_eq!(b[0], 255);
        }
        assert_eq!(from_bytes::<usize>(&b), Some(n));
    }
    assert_eq!(to_bytes(&253usize), vec![253]);
    assert_eq!(to_bytes(&254usize), vec![254, 254, 0, 0, 0]);
    assert_eq!(to_bytes(&255usize), vec![254, 255, 0, 0, 0]);
    assert_eq!(to_bytes(&(1usize << 32)), vec![255, 0, 0, 0, 0, 1, 0, 0, 0]);
}

#[test]
fn bool_bytes() {
    assert_eq!(to_bytes(&true), vec![0x31]);
    assert_eq!(to_bytes(&false), vec![0x30]);
    assert_eq!(from_bytes::<bool>(&[0x31]), Some(true));
    assert_eq!(from_bytes::<bool>(&[0x30]), Some(false));
    assert_eq!(from_bytes::<bool>(&[0x00]), Some(false));
    assert_eq!(from_bytes::<bool>(&[0x32]), Some(false));
    assert_eq!(from_bytes::<bool>(&[0x01]), Some(false));
}

#[test]
fn truncated_input_fails() {
    assert_eq!(from_bytes::<bool>(&[]), None);
    assert_eq!(from_bytes::<u8>(&[]), None);
    assert_eq!(from_bytes::<u32>(&[1, 2, 3]), None);
    assert_eq!(from_bytes::<i128>(&[0; 15]), None);
    assert_eq!(from_bytes::<usize>(&[254, 1, 2, 3]), None);
    assert_eq!(from_bytes::<usize>(&[255, 1, 2, 3, 4, 5, 6, 7]), None);
    assert_eq!(from_bytes::<String>(&[5, b'a', b'b']), None);
    assert_eq!(from_bytes::<Vec<u8>>(&[2, 1]), None);
    assert_eq!(from_bytes::<Option<u16>>(&[0x31, 1]), None);
    assert_eq!(from_bytes::<(u8, u16)>(&[1, 2]), None);
    let full = to_bytes(&(1i8, String::from("abc"), vec![7u32, 8]));
    for k in 0..full.len() {
        assert_eq!(from_bytes::<(i8, String, Vec<u32>)>(&full[..k]), None, "{}", k);
    }
}

#[test]
fn invalid_utf8_fails() {
    assert_eq!(from_bytes::<String>(&[2, 0xC3, 0x28]), None);
    assert_eq!(from_bytes::<String>(&[1, 0xFF]), None);
    assert_eq!(from_bytes::<Vec<u8>>(&[2, 0xC3, 0x28]), Some(vec![0xC3, 0x28]));
    assert_eq!(from_bytes::<String>(&[2, 0xC3, 0xA9]), Some(String::from("\u{e9}")));
}

#[test]
fn scalar_tuple_scenario() {
    let t = (-5i8, 10u32, 300usize);
    let b = to_bytes(&t);
    assert_eq!(b, vec![0xFB, 0x0A, 0x00, 0x00, 0x00, 0xFE, 0x2C, 0x01, 0x00, 0x00]);
    let mut c = ByteCursor::new(&b);
    assert_eq!(<(i8, u32, usize)>::from_bytes(&mut c), Some(t));
    assert_eq!(c.remaining(), 0);
}

#[test]
fn optional_scenario() {
    assert_eq!(to_bytes(&None::<u16>), vec![0x30]);
    assert_eq!(to_bytes(&Some(256u16)), vec![0x31, 0x00, 0x01]);
    assert_eq!(from_bytes::<Option<u16>>(&[0x30]), Some(None));
    assert_eq!(from_bytes::<Option<u16>>(&[0x31, 0x00, 0x01]), Some(Some(256)));
    // any presence byte but '0' announces a payload
    assert_eq!(from_bytes::<Option<u8>>(&[0x00, 0x07]), Some(Some(7)));
}

#[test]
fn empty_string_scenario() {
    assert_eq!(to_bytes(&String::new()), vec![0x00]);
    let mut c = ByteCursor::new(&[0x00]);
    assert_eq!(String::from_bytes(&mut c), Some(String::new()));
    assert_eq!(c.remaining(), 0);
}

#[test]
fn string_bytes() {
    let s = String::from("\u{30a2}\u{30a4}\u{30a6}");
    let b = to_bytes(&s);
    assert_eq!(b.len(), 10);
    assert_eq!(b[0], 9);
    assert_eq!(&b[1..], s.as_bytes());
    encode_decode(&s);
    let long = "x".repeat(300);
    let b = to_bytes(&long);
    assert_eq!(&b[..5], &[254, 0x2C, 0x01, 0, 0]);
    encode_decode(&long);
}

#[test]
fn shared_buffer() {
    let buf = bytes::Bytes::from(vec![9u8, 8, 7]);
    assert_eq!(to_bytes(&buf), vec![3, 9, 8, 7]);
    assert_eq!(from_bytes::<bytes::Bytes>(&[2, 5, 6, 1]), Some(bytes::Bytes::from(vec![5u8, 6])));
    assert_eq!(from_bytes::<bytes::Bytes>(&[3, 5, 6]), None);
    encode_decode(&bytes::Bytes::new());
    encode_decode(&bytes::Bytes::from(vec![0u8; 1000]));
}

#[test]
fn nested_shapes() {
    encode_decode(&Box::new(42u64));
    encode_decode(&Some(vec![Some(String::from("a")), None]));
    encode_decode(&vec![vec![1u16, 2], vec![], vec![3]]);
    encode_decode(&(1u8, -2i16, 3u32, -4i64, 5u128, true, String::from("seven")));
    encode_decode(&(1u8, 2u8, 3u8, 4u8, 5u8, 6u8));
    encode_decode(&(1u8, 2u8, 3u8, 4u8, 5u8));
    encode_decode(&vec![0usize, 1, 254, 255, 1 << 40]);
    encode_decode(&(Option::<u32>::None, false));
    assert_eq!(to_bytes(&Box::new(7u16)), vec![7, 0]);
    assert_eq!(to_bytes(&vec![1u16, 2]), vec![2, 1, 0, 2, 0]);
}

#[test]
fn little_endian_integers() {
    assert_eq!(to_bytes(&0x0102_0304u32), vec![4, 3, 2, 1]);
    assert_eq!(to_bytes(&-1i16), vec![0xFF, 0xFF]);
    assert_eq!(to_bytes(&-2i64), vec![0xFE, 0xFF, 0xFF, 0xFF, 0xFF, 0xFF, 0xFF, 0xFF]);
    assert_eq!(from_bytes::<i32>(&[0xFF, 0xFF, 0xFF, 0x7F]), Some(i32::MAX));
    assert_eq!(to_bytes(&()), Vec::<u8>::new());
}

#[test]
fn trailing_bytes_are_left() {
    let mut c = ByteCursor::new(&[3, 1, 2, 3, 99, 100]);
    assert_eq!(Vec::<u8>::from_bytes(&mut c), Some(vec![1, 2, 3]));
    assert_eq!(c.remaining(), 2);
    assert_eq!(c.peek_remaining(), &[99, 100]);
    assert_eq!(c.remaining(), 2);
    c.advance(0);
    assert_eq!(c.get_u8(), Some(99));
    assert_eq!(c.take(1), Some(vec![100]));
    assert_eq!(c.get_u8(), None);
    assert_eq!(c.take(1), None);
}

#[test]
fn cursor_advance() {
    let mut c = ByteCursor::new(&[1, 2, 3, 4]);
    c.advance(3);
    assert_eq!(c.remaining(), 1);
    assert_eq!(c.peek_remaining(), &[4]);
    assert_eq!(u8::from_bytes(&mut c), Some(4));
    assert_eq!(c.peek_remaining(), &[] as &[u8]);
}

#[test]
fn byte_writer_appends() {
    let mut out: Vec<u8> = vec![1];
    out.write(&[2, 3]);
    out.write(&[]);
    assert_eq!(out, vec![1, 2, 3]);
    let mut out: Vec<u8> = vec![0xAA];
    7u8.to_bytes(&mut out);
    assert_eq!(out, vec![0xAA, 7]);
}

use nhvsampler::utils::llsm::{as_dict, as_f32, frame_f0, parse_llsm, parse_node, Cursor, Node};

fn make_llsm(hop_sec: f32, f0s: &[f32]) -> Vec<u8> {
    let mut root = Vec::new();
    root.push(1u8);
    root.extend_from_slice(&(4i32).to_le_bytes());
    root.push(7u8);
    root.extend_from_slice(b"version");
    root.push(3u8);
    root.extend_from_slice(&(524.0f32).to_le_bytes());
    root.push(8u8);
    root.extend_from_slice(b"duration");
    root.push(3u8);
    root.extend_from_slice(&(f0s.len() as f32 * hop_sec).to_le_bytes());
    root.push(3u8);
    root.extend_from_slice(b"_35");
    root.push(1u8);
    root.extend_from_slice(&(2i32).to_le_bytes());
    root.push(2u8);
    root.extend_from_slice(b"_c");
    root.push(3u8);
    root.extend_from_slice(&hop_sec.to_le_bytes());
    root.push(2u8);
    root.extend_from_slice(b"_1");
    root.push(3u8);
    root.extend_from_slice(&(f0s.len() as f32).to_le_bytes());
    root.push(3u8);
    root.extend_from_slice(b"_3a");
    root.push(7u8);
    root.extend_from_slice(&(f0s.len() as i32).to_le_bytes());
    let off_patch = root.len();
    for _ in 0..f0s.len() + 1 {
        root.extend_from_slice(&[0u8; 4]);
    }
    let mut offs = Vec::new();
    for &f0 in f0s {
        offs.push(root.len() + 5);
        root.push(1u8);
        root.extend_from_slice(&(1i32).to_le_bytes());
        root.push(3u8);
        root.extend_from_slice(b"_40");
        root.push(6u8);
        root.extend_from_slice(&(4i32).to_le_bytes());
        root.extend_from_slice(&f0.to_le_bytes());
    }
    offs.push(root.len() + 5);
    for (i, o) in offs.iter().enumerate() {
        let p = off_patch + i * 4;
        root[p..p + 4].copy_from_slice(&(*o as i32).to_le_bytes());
    }
    let mut out = Vec::new();
    out.extend_from_slice(b"\x04data");
    out.extend_from_slice(&root);
    out
}

#[test]
fn parse_llsm_frames_and_timing() {
    let hop_sec = 256.0 / 44100.0;
    let f0s = [0.0f32, 0.0, 0.0, 220.0, 330.0, 0.0, 440.0, 0.0];
    let bytes = make_llsm(hop_sec, &f0s);
    let a = parse_llsm(&bytes).expect("read");
    let want: Vec<u32> = f0s.iter().map(|f| f.to_bits()).collect();
    assert_eq!(a.frame_f0_bits, want);
    assert_eq!(a.hop_bits, Some((hop_sec as f32).to_bits()));
    assert_eq!(a.duration_bits, Some((8.0f32 * hop_sec as f32).to_bits()));
}

#[test]
fn parse_llsm_rejects_bad_opening() {
    let mut bytes = make_llsm(0.01, &[100.0]);
    bytes[1] = b'D';
    assert!(parse_llsm(&bytes).is_none());
    assert!(parse_llsm(b"\x04dat").is_none());
    assert!(parse_llsm(b"").is_none());
}

#[test]
fn parse_llsm_rejects_empty_frame_table() {
    let bytes = make_llsm(0.01, &[]);
    assert!(parse_llsm(&bytes).is_none());
}

#[test]
fn parse_llsm_rejects_truncated_file() {
    let bytes = make_llsm(0.01, &[100.0, 200.0]);
    assert!(parse_llsm(&bytes[..bytes.len() - 1]).is_none());
}

#[test]
fn parse_llsm_without_frame_table() {
    // Root dictionary with a single real entry.
    let mut b = b"\x04data".to_vec();
    b.push(1);
    b.extend_from_slice(&1i32.to_le_bytes());
    b.push(8);
    b.extend_from_slice(b"duration");
    b.push(3);
    b.extend_from_slice(&1.5f32.to_le_bytes());
    assert!(parse_llsm(&b).is_none());
}

#[test]
fn parse_llsm_cyclic_offsets_rejected() {
    // A frame table whose only item points back at the table itself.
    let mut b = b"\x04data".to_vec();
    b.push(1);
    b.extend_from_slice(&1i32.to_le_bytes());
    b.push(3);
    b.extend_from_slice(b"_3a");
    let table = b.len();
    b.push(7);
    b.extend_from_slice(&1i32.to_le_bytes());
    b.extend_from_slice(&(table as i32).to_le_bytes());
    b.extend_from_slice(&0i32.to_le_bytes());
    assert!(parse_llsm(&b).is_none());
}

#[test]
fn cursor_reads() {
    let buf = [7u8, 0xff, 0xff, 0xff, 0xff, 1, 2, 3];
    let mut c = Cursor::new(&buf);
    assert_eq!(c.u8(), Some(7));
    assert_eq!(c.i32(), Some(-1));
    assert_eq!(c.pos, 5);
    assert_eq!(c.i32(), None);
    assert_eq!(c.pos, 5);
    assert_eq!(c.take(2), Some(&buf[5..7]));
    assert_eq!(c.take(2), None);
    c.seek(1);
    assert_eq!(c.f32_bits(), Some(0xffff_ffff));
    c.seek(100);
    assert_eq!(c.u8(), None);
    assert_eq!(c.take(0), None);
}

#[test]
fn cursor_real_bits() {
    let bytes = 1.5f32.to_le_bytes();
    let mut c = Cursor::new(&bytes);
    assert_eq!(c.f32_bits(), Some(1.5f32.to_bits()));
}

#[test]
fn parse_node_every_tag() {
    let mut b = Vec::new();
    // List of 2 x 1 reals.
    b.push(2);
    b.extend_from_slice(&2i32.to_le_bytes());
    b.extend_from_slice(&1i32.to_le_bytes());
    b.push(3);
    b.extend_from_slice(&2.0f32.to_le_bytes());
    b.push(6);
    b.extend_from_slice(&3i32.to_le_bytes());
    b.extend_from_slice(b"abc");
    let mut c = Cursor::new(&b);
    match parse_node(&mut c, 64) {
        Some(Node::List(xs)) => {
            assert_eq!(xs.len(), 2);
            assert_eq!(as_f32(&xs[0]), Some(2.0f32.to_bits()));
            match &xs[1] {
                Node::Bytes(v) => assert_eq!(v, b"abc"),
                _ => panic!("bytes expected"),
            }
        }
        _ => panic!("list expected"),
    }
    assert_eq!(c.pos, b.len());

    let mut f = vec![5u8];
    f.extend_from_slice(&1i32.to_le_bytes());
    f.extend_from_slice(&2i32.to_le_bytes());
    f.extend_from_slice(&1.0f32.to_le_bytes());
    f.extend_from_slice(&(-1.0f32).to_le_bytes());
    let mut c = Cursor::new(&f);
    match parse_node(&mut c, 64) {
        Some(Node::Farr(v)) => assert_eq!(v, vec![1.0f32.to_bits(), (-1.0f32).to_bits()]),
        _ => panic!("real array expected"),
    }

    let mut c = Cursor::new(&[4u8]);
    assert!(parse_node(&mut c, 64).is_none());
    let mut c = Cursor::new(&[3u8, 0, 0]);
    assert!(parse_node(&mut c, 64).is_none());
    let mut c = Cursor::new(&[3u8, 0, 0, 0, 0]);
    assert!(parse_node(&mut c, 0).is_none());
}

#[test]
fn dictionary_lookup_last_entry_wins() {
    let mut b = vec![1u8];
    b.extend_from_slice(&2i32.to_le_bytes());
    for v in [1.0f32, 2.0] {
        b.push(1);
        b.push(b'k');
        b.push(3);
        b.extend_from_slice(&v.to_le_bytes());
    }
    let mut c = Cursor::new(&b);
    let n = parse_node(&mut c, 64).expect("dict");
    assert_eq!(as_dict(&n, b"k").and_then(as_f32), Some(2.0f32.to_bits()));
    assert!(as_dict(&n, b"x").is_none());
}

#[test]
fn frame_f0_needs_four_bytes() {
    let frame = Node::Dict(vec![(b"_40".to_vec(), Node::Bytes(vec![1, 2, 3]))]);
    assert_eq!(frame_f0(&frame), 0);
    let frame = Node::Dict(vec![(b"_40".to_vec(), Node::Bytes(vec![1, 2, 3, 4, 5]))]);
    assert_eq!(frame_f0(&frame), 0x0403_0201);
    assert_eq!(frame_f0(&Node::F32(5)), 0);
}

#[test]
fn parse_llsm_accepts_deep_nesting() {
    // Root dictionary: a chain of 1500 nested one-entry dictionaries, then
    // a frame table with one voiced frame.
    let depth = 1500;
    let mut b = b"\x04data".to_vec();
    b.push(1);
    b.extend_from_slice(&2i32.to_le_bytes());
    b.push(4);
    b.extend_from_slice(b"deep");
    for _ in 0..depth {
        b.push(1);
        b.extend_from_slice(&1i32.to_le_bytes());
        b.push(1);
        b.push(b'x');
    }
    b.push(3);
    b.extend_from_slice(&0.5f32.to_le_bytes());
    b.push(3);
    b.extend_from_slice(b"_3a");
    b.push(7);
    b.extend_from_slice(&1i32.to_le_bytes());
    let item = b.len() + 8;
    b.extend_from_slice(&(item as i32).to_le_bytes());
    b.extend_from_slice(&0i32.to_le_bytes());
    b.push(1);
    b.extend_from_slice(&1i32.to_le_bytes());
    b.push(3);
    b.extend_from_slice(b"_40");
    b.push(6);
    b.extend_from_slice(&4i32.to_le_bytes());
    b.extend_from_slice(&220.0f32.to_le_bytes());
    let a = parse_llsm(&b).expect("deeply nested file is read");
    assert_eq!(a.frame_f0_bits, vec![220.0f32.to_bits()]);
}

#[test]
fn parse_node_zero_dimension_with_negative_other() {
    for tag in [2u8, 5] {
        let mut b = vec![tag];
        b.extend_from_slice(&(-1i32).to_le_bytes());
        b.extend_from_slice(&0i32.to_le_bytes());
        let mut c = Cursor::new(&b);
        match parse_node(&mut c, 64) {
            Some(Node::List(v)) => assert!(tag == 2 && v.is_empty()),
            Some(Node::Farr(v)) => assert!(tag == 5 && v.is_empty()),
            _ => panic!("empty node expected"),
        }
        assert_eq!(c.pos, 9);
        let mut b = vec![tag];
        b.extend_from_slice(&(-1i32).to_le_bytes());
        b.extend_from_slice(&2i32.to_le_bytes());
        let mut c = Cursor::new(&b);
        assert!(parse_node(&mut c, 64).is_none());
    }
}

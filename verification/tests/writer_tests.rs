use pklib::{implode_bytes, CompressionMode, DictionarySize, ImplodeWriter};

#[test]
fn empty_input_is_header_and_end_marker() {
    let out = implode_bytes(b"", CompressionMode::Binary, DictionarySize::Size2K).unwrap();
    // Mode 0, five low distance bits, then the end marker 1 0000000 11111111.
    assert_eq!(out, vec![0x00, 0x05, 0x01, 0xFF]);
    let out = implode_bytes(b"", CompressionMode::ASCII, DictionarySize::Size4K).unwrap();
    assert_eq!(out, vec![0x01, 0x06, 0x01, 0xFF]);
}

#[test]
fn one_literal_in_binary_mode() {
    let out = implode_bytes(b"X", CompressionMode::Binary, DictionarySize::Size2K).unwrap();
    // 'X' is 0 then 0x58 lowest bit first; the end marker follows.
    assert_eq!(out, vec![0x00, 0x05, 0xB0, 0x02, 0xFE, 0x01]);
}

#[test]
fn a_repetition_is_coded() {
    // "XABCDABCD": literals X A B C D, then four bytes four back.
    let out = implode_bytes(b"XABCDABCD", CompressionMode::Binary, DictionarySize::Size1K).unwrap();
    // Header, five literals (45 bits), length 4 (flag and three bits),
    // distance less one 3 (two-bit code, then four low bits), end marker
    // (16 bits): 71 bits, 9 bytes.
    assert_eq!(out.len(), 2 + 9);
    assert_eq!(&out[..2], &[0x00, 0x04]);
}

#[test]
fn streamed_output_equals_one_shot_for_small_input() {
    let data = b"streaming keeps small inputs in the input buffer until finish";
    let mut w = ImplodeWriter::new(CompressionMode::ASCII, DictionarySize::Size1K).unwrap();
    let mut out = Vec::new();
    for chunk in data.chunks(7) {
        assert_eq!(w.write(chunk).unwrap(), chunk.len());
        out.extend(w.take_output());
    }
    assert!(out.is_empty());
    out.extend(w.finish().unwrap());
    let one = implode_bytes(data, CompressionMode::ASCII, DictionarySize::Size1K).unwrap();
    assert_eq!(out, one);
}

#[test]
fn flush_makes_complete_bytes_pending() {
    let mut w = ImplodeWriter::new(CompressionMode::Binary, DictionarySize::Size2K).unwrap();
    w.write(b"abcdefgh").unwrap();
    w.flush().unwrap();
    let first = w.take_output();
    // The last 516 bytes wait for more input: only the header is complete.
    assert_eq!(first, vec![0x00, 0x05]);
    let rest = w.finish().unwrap();
    assert!(!rest.is_empty());
}

#[test]
fn close_finishes_like_finish() {
    let w = ImplodeWriter::new(CompressionMode::Binary, DictionarySize::Size2K).unwrap();
    assert_eq!(w.close(), vec![0x00, 0x05, 0x01, 0xFF]);
    let mut w = ImplodeWriter::new(CompressionMode::Binary, DictionarySize::Size2K).unwrap();
    w.write(b"X").unwrap();
    assert_eq!(w.close(), vec![0x00, 0x05, 0xB0, 0x02, 0xFE, 0x01]);
}

#[test]
fn large_input_goes_out_during_writes() {
    let mut x: u32 = 12345;
    let data: Vec<u8> = (0..20_000)
        .map(|_| {
            x = x.wrapping_mul(1103515245).wrapping_add(12345);
            (x >> 16) as u8
        })
        .collect();
    let mut w = ImplodeWriter::new(CompressionMode::Binary, DictionarySize::Size4K).unwrap();
    let mut out = Vec::new();
    for chunk in data.chunks(1000) {
        w.write(chunk).unwrap();
        out.extend(w.take_output());
    }
    assert!(!out.is_empty());
    out.extend(w.finish().unwrap());
    assert_eq!(&out[..2], &[0x00, 0x06]);
}

#[test]
fn writes_below_the_threshold_code_nothing() {
    let mut x: u32 = 777;
    let data: Vec<u8> = (0..4096)
        .map(|_| {
            x = x.wrapping_mul(1103515245).wrapping_add(12345);
            (x >> 16) as u8
        })
        .collect();
    let mut w = ImplodeWriter::new(CompressionMode::Binary, DictionarySize::Size1K).unwrap();
    w.write(&data[..4095]).unwrap();
    assert!(w.take_output().is_empty());
    // The 4096th byte starts the coding of all but the last 516 bytes; with
    // data that does not repeat, that fills the output buffer at least once.
    w.write(&data[4095..]).unwrap();
    let out = w.take_output();
    assert!(out.len() >= 0x800);
    assert_eq!(&out[..2], &[0x00, 0x04]);
}

fn pseudo_random(n: usize, seed: u32) -> Vec<u8> {
    let mut x: u32 = seed;
    (0..n)
        .map(|_| {
            x = x.wrapping_mul(1103515245).wrapping_add(12345);
            // Few distinct bytes, so that there are repetitions.
            b"abcd"[((x >> 16) % 4) as usize]
        })
        .collect()
}

#[test]
fn close_gives_the_bytes_of_finish_beyond_one_window() {
    let data = pseudo_random(30_000, 99);
    let mut a = ImplodeWriter::new(CompressionMode::Binary, DictionarySize::Size2K).unwrap();
    let mut b = ImplodeWriter::new(CompressionMode::Binary, DictionarySize::Size2K).unwrap();
    let (mut out_a, mut out_b) = (Vec::new(), Vec::new());
    for chunk in data.chunks(5000) {
        a.write(chunk).unwrap();
        b.write(chunk).unwrap();
        out_a.extend(a.take_output());
        out_b.extend(b.take_output());
    }
    out_a.extend(a.finish().unwrap());
    out_b.extend(b.close());
    assert_eq!(out_a, out_b);
}

#[test]
fn one_shot_equals_writes_of_any_size_below_the_threshold() {
    let data = pseudo_random(20_000, 7);
    let one = implode_bytes(&data, CompressionMode::ASCII, DictionarySize::Size4K).unwrap();
    let mut w = ImplodeWriter::new(CompressionMode::ASCII, DictionarySize::Size4K).unwrap();
    let mut out = Vec::new();
    // One write of everything, as `implode_bytes` does.
    w.write(&data).unwrap();
    out.extend(w.take_output());
    out.extend(w.finish().unwrap());
    assert_eq!(out, one);
}

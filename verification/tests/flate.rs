//! Flate streams inflated a step at a time.

use std::io::Write;

use flate2::write::{DeflateEncoder, ZlibEncoder};
use flate2::Compression;
use lopdf::filters::flate::{Inflater, STEP};

fn zlib(data: &[u8]) -> Vec<u8> {
    let mut encoder = ZlibEncoder::new(Vec::new(), Compression::default());
    encoder.write_all(data).unwrap();
    encoder.finish().unwrap()
}

fn inflate(input: &[u8], step: usize) -> Vec<u8> {
    let mut inflater = Inflater::new(input);
    let mut output = Vec::new();
    while inflater.read_into(&mut output, step) == step {}
    output
}

fn text(len: usize) -> Vec<u8> {
    (0..len).map(|i| b"BT /F1 12 Tf (Hello) Tj ET\n"[i % 27]).collect()
}

#[test]
fn reads_in_steps_of_any_size() {
    let data = text(300_000);
    let compressed = zlib(&data);
    for step in [1, 7, 4096, STEP, STEP + 1, usize::MAX] {
        assert_eq!(inflate(&compressed, step.min(400_000)), data, "step {step}");
    }
}

#[test]
fn keeps_the_bytes_before_a_fault() {
    let data = text(300_000);
    let mut compressed = zlib(&data);
    let len = compressed.len();
    compressed.truncate(len / 2);
    compressed.extend_from_slice(&[0xff; 64]);

    let output = inflate(&compressed, usize::MAX);

    // What the bytes after the cut decode to before the fault shows depends on the backend.
    let kept = data.len() / 4;
    assert!(output.len() > kept, "{}", output.len());
    assert_eq!(output[..kept], data[..kept]);
}

#[test]
fn keeps_everything_when_only_the_checksum_is_wrong() {
    let data = text(300_000);
    let mut compressed = zlib(&data);
    let len = compressed.len();
    for byte in &mut compressed[len - 4..] {
        *byte ^= 0xff;
    }
    assert_eq!(inflate(&compressed, usize::MAX), data);
}

#[test]
fn reads_raw_deflate_after_a_header_when_zlib_yields_nothing() {
    let data = text(1000);
    let mut encoder = DeflateEncoder::new(vec![0x78, 0x00], Compression::default());
    encoder.write_all(&data).unwrap();
    let broken_header = encoder.finish().unwrap();
    assert_eq!(inflate(&broken_header, usize::MAX), data);
}

#[test]
fn a_truncated_stream_ends_where_its_input_does() {
    let data = text(300_000);
    let compressed = zlib(&data);
    let output = inflate(&compressed[..compressed.len() / 2], 4096);
    assert!(!output.is_empty());
    assert_eq!(output, data[..output.len()]);
    assert!(inflate(&[], 4096).is_empty());
}

#[test]
fn reading_on_after_the_end_gives_nothing() {
    let data = text(100);
    let compressed = zlib(&data);
    let mut inflater = Inflater::new(&compressed);
    let mut output = Vec::new();
    assert_eq!(inflater.read_into(&mut output, 60), 60);
    assert_eq!(inflater.read_into(&mut output, 60), 40);
    assert_eq!(inflater.read_into(&mut output, 60), 0);
    assert_eq!(inflater.read_into(&mut output, 0), 0);
    assert_eq!(output, data);
}

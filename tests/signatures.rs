use dupe_finder::file_diff::same_chunks;
use dupe_finder::file_hash::{
    fnv_update, head_signature, next_chunk, FastSamples, HashResult, FNV_OFFSET,
};

#[test]
fn default_table_has_1024_cuts() {
    let t = FastSamples::default();
    assert_eq!(t.cuts, 1024);
    assert_eq!(t.samples[0], 697);
    assert_eq!(t.samples[31], 681);
}

#[test]
fn offsets_of_1024_byte_file_are_the_positions() {
    let t = FastSamples::default();
    let offs = t.offsets(1024);
    assert_eq!(offs.len(), 32);
    for i in 0..32 {
        assert_eq!(offs[i], t.samples[i]);
    }
}

#[test]
fn offsets_scale_by_length() {
    let t = FastSamples::default();
    let offs = t.offsets(10);
    // 10 * 697 / 1024 = 6, 10 * 66 / 1024 = 0, 10 * 1009 / 1024 = 9
    assert_eq!(offs[0], 6);
    assert_eq!(offs[12], 0);
    assert_eq!(offs[28], 9);
    assert!(offs.iter().all(|&o| o < 10));
}

#[test]
fn offsets_do_not_overflow_on_huge_files() {
    let t = FastSamples::default();
    let offs = t.offsets(u64::MAX);
    assert!(offs.iter().all(|&o| o < u64::MAX));
    assert_eq!(offs[16], ((u64::MAX as u128) * 992 / 1024) as u64);
}

#[test]
fn sampled_signature_is_reproducible() {
    let content: Vec<u8> = (0..5000u32).map(|i| (i * 7 % 251) as u8).collect();
    let t = FastSamples::default();
    let read = |c: &Vec<u8>| -> Vec<u8> {
        t.offsets(c.len() as u64).iter().map(|&o| c[o as usize]).collect()
    };
    let a = HashResult::Fast(read(&content));
    let b = HashResult::Fast(read(&content.clone()));
    assert_eq!(a, b);
    assert_eq!(a.hex(), b.hex());
}

#[test]
fn head_signature_pads_short_reads_with_zeros() {
    let h = head_signature(&[1, 2, 3], 6);
    assert_eq!(h, HashResult::Head(vec![1, 2, 3, 0, 0, 0]));
}

#[test]
fn head_signature_truncates_long_reads() {
    let h = head_signature(&[9, 8, 7, 6], 2);
    assert_eq!(h, HashResult::Head(vec![9, 8]));
}

#[test]
fn short_files_equal_after_padding() {
    // a 2-byte file "ab" and a 3-byte file "ab\0" share their padded prefix
    assert_eq!(head_signature(b"ab", 4), head_signature(b"ab\0", 4));
    assert_ne!(head_signature(b"ab", 4), head_signature(b"ac", 4));
}

#[test]
fn fnv_of_known_inputs() {
    assert_eq!(fnv_update(FNV_OFFSET, b""), 0xcbf29ce484222325);
    assert_eq!(fnv_update(FNV_OFFSET, b"a"), 0xaf63dc4c8601ec8c);
    assert_eq!(fnv_update(FNV_OFFSET, b"foobar"), 0x85944171f73967e8);
}

#[test]
fn fnv_in_chunks_equals_whole() {
    let data: Vec<u8> = (0..10000u32).map(|i| (i % 256) as u8).collect();
    let whole = fnv_update(FNV_OFFSET, &data);
    let mut h = FNV_OFFSET;
    for chunk in data.chunks(4096) {
        h = fnv_update(h, chunk);
    }
    assert_eq!(h, whole);
}

#[test]
fn hex_of_bytes_and_integers() {
    assert_eq!(HashResult::Fast(vec![0x00, 0x0f, 0xa5, 0xff]).hex(), "000fa5ff");
    assert_eq!(HashResult::Length(255).hex(), "00000000000000ff");
    assert_eq!(HashResult::Fnv(0x0123456789abcdef).hex(), "0123456789abcdef");
    assert_eq!(HashResult::Head(vec![]).hex(), "");
}

#[test]
fn bytes_are_big_endian() {
    assert_eq!(HashResult::Length(0x0102).bytes(), vec![0, 0, 0, 0, 0, 0, 1, 2]);
}

#[test]
fn signatures_of_different_kinds_differ() {
    assert_ne!(HashResult::Length(5), HashResult::Fnv(5));
    assert_ne!(HashResult::Head(vec![1]), HashResult::Fast(vec![1]));
    assert_eq!(HashResult::Length(5), HashResult::Length(5));
}

#[test]
fn chunks_verdicts() {
    assert_eq!(same_chunks(b"abc", b"abc"), None);
    assert_eq!(same_chunks(b"", b""), Some(true));
    assert_eq!(same_chunks(b"abc", b"abd"), Some(false));
    assert_eq!(same_chunks(b"abc", b"ab"), Some(false));
    assert_eq!(same_chunks(b"ab", b"abc"), Some(false));
    assert_eq!(same_chunks(b"", b"a"), Some(false));
}

#[test]
fn next_chunk_sizes() {
    assert_eq!(next_chunk(Some(100), 4096), 100);
    assert_eq!(next_chunk(Some(10000), 4096), 4096);
    assert_eq!(next_chunk(Some(0), 4096), 0);
    assert_eq!(next_chunk(None, 4096), 4096);
}

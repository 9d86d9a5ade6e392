use untar_hdfs::lzw::{decode_all, DecodeError, ZDecoder};

/// Encoder for the same bitstream, used to check decoding on many inputs.
fn compress(data: &[u8], max_bits: u8, block: bool) -> Vec<u8> {
    let mut out = vec![0x1f, 0x9d, (if block { 0x80 } else { 0 }) | max_bits];
    if data.is_empty() {
        return out;
    }
    let mut dict = std::collections::HashMap::new();
    let mut free: u32 = if block { 257 } else { 256 };
    let mut nbits: u32 = 9;
    let mut acc: u64 = 0;
    let mut nacc: u32 = 0;
    let mut emit = |code: u32, nbits: u32, out: &mut Vec<u8>| {
        acc |= (code as u64) << nacc;
        nacc += nbits;
        while nacc >= 8 {
            out.push((acc & 0xff) as u8);
            acc >>= 8;
            nacc -= 8;
        }
    };
    let mut ent: u32 = data[0] as u32;
    for &ch in &data[1..] {
        if let Some(&c) = dict.get(&(ent, ch)) {
            ent = c;
            continue;
        }
        emit(ent, nbits, &mut out);
        if free < (1u32 << max_bits) {
            dict.insert((ent, ch), free);
            free += 1;
        }
        ent = ch as u32;
        if free > (1u32 << nbits) && nbits < max_bits as u32 {
            nbits += 1;
        }
    }
    emit(ent, nbits, &mut out);
    if nacc > 0 {
        out.push((acc & 0xff) as u8);
    }
    out
}

fn decoder_for(z: &[u8]) -> ZDecoder {
    let mut d = ZDecoder::new(z[..3].to_vec());
    d.feed(&z[3..].to_vec());
    d
}

fn sample(len: usize, seed: u64) -> Vec<u8> {
    let mut x = seed;
    (0..len)
        .map(|_| {
            x = x.wrapping_mul(6364136223846793005).wrapping_add(1442695040888963407);
            // a small alphabet, so that the dictionary fills with long strings
            b"abcdefgh"[((x >> 33) % 8) as usize]
        })
        .collect()
}

#[test]
fn decodes_known_stream_block_mode() {
    let z = vec![31, 157, 144, 84, 158, 8, 41, 242, 68, 138, 147, 39, 84, 2, 14, 44, 168, 144, 160, 65, 132];
    assert_eq!(decode_all(z).unwrap(), b"TOBEORNOTTOBEORTOBEORNOT".to_vec());
}

#[test]
fn decodes_known_stream_without_block_mode() {
    let z = vec![31, 157, 12, 97, 196, 0, 20, 40, 6];
    assert_eq!(decode_all(z).unwrap(), b"abababab".to_vec());
}

#[test]
fn decodes_known_stream_nine_bits() {
    let z = vec![31, 157, 137, 104, 202, 176, 97, 243, 6];
    assert_eq!(decode_all(z).unwrap(), b"hello".to_vec());
}

#[test]
fn next_code_repeats_first_byte() {
    // "aaaaaaaaaa" is coded as 'a', 257, 258, 259: each one the code not yet in the table
    let z = vec![31, 157, 144, 97, 2, 10, 28, 8];
    assert_eq!(decode_all(z).unwrap(), b"aaaaaaaaaa".to_vec());
}

#[test]
fn round_trip_every_width_and_mode() {
    for max_bits in 9..=16u8 {
        for block in [false, true] {
            for (len, seed) in [(0usize, 1u64), (1, 2), (100, 3), (5000, 4), (40000, 5)] {
                let data = sample(len, seed + max_bits as u64);
                let z = compress(&data, max_bits, block);
                assert_eq!(decode_all(z).unwrap(), data, "max_bits {} block {} len {}", max_bits, block, len);
            }
        }
    }
}

#[test]
fn wrong_magic_gives_nothing() {
    assert_eq!(decode_all(vec![0x1f, 0x8b, 0x90, 1, 2, 3]).unwrap(), Vec::<u8>::new());
    assert_eq!(decode_all(vec![]).unwrap(), Vec::<u8>::new());
    assert_eq!(decode_all(vec![0x1f, 0x9d]).unwrap(), Vec::<u8>::new());
    let mut d = decoder_for(b"plain text");
    assert_eq!(d.read(64).unwrap(), Vec::<u8>::new());
    d.feed(&vec![0x1f, 0x9d, 0x90, 97]);
    assert_eq!(d.read(64).unwrap(), Vec::<u8>::new());
}

/// Packs 9-bit codes after a block-mode header.
fn nine_bit_stream(codes: &[u32]) -> Vec<u8> {
    let mut out = vec![0x1f, 0x9d, 0x90];
    let mut acc: u64 = 0;
    let mut n = 0;
    for &c in codes {
        acc |= (c as u64) << n;
        n += 9;
        while n >= 8 {
            out.push((acc & 0xff) as u8);
            acc >>= 8;
            n -= 8;
        }
    }
    if n > 0 {
        out.push(acc as u8);
    }
    out
}

#[test]
fn clear_resets_table() {
    // 'a', 'b', then 257 ("ab"), CLEAR, 'c', 'd', then 257 ("cd")
    let z = nine_bit_stream(&[97, 98, 257, 256, 99, 100, 257]);
    assert_eq!(decode_all(z).unwrap(), b"ababcdcd".to_vec());
}

#[test]
fn code_from_before_clear_is_rejected() {
    // after CLEAR, 258 was issued before it and is neither in the table nor next
    let z = nine_bit_stream(&[97, 98, 97, 256, 99, 258]);
    assert_eq!(decode_all(z), Err(DecodeError::MalformedStream));
    // right after CLEAR there is no previous code, so even 257 fails
    let z = nine_bit_stream(&[97, 98, 256, 257]);
    assert_eq!(decode_all(z), Err(DecodeError::MalformedStream));
}

#[test]
fn unknown_code_is_malformed() {
    let z = nine_bit_stream(&[97, 300]);
    assert_eq!(decode_all(z), Err(DecodeError::MalformedStream));
    // the read that reaches the bad code fails, dropping the "a" before it
    let mut d = decoder_for(&nine_bit_stream(&[97, 300]));
    assert_eq!(d.read(10), Err(DecodeError::MalformedStream));
    assert_eq!(d.read(10), Err(DecodeError::MalformedStream));
    // a read that fills up before the bad code succeeds
    let mut d = decoder_for(&nine_bit_stream(&[97, 98, 300]));
    assert_eq!(d.read(1).unwrap(), b"a".to_vec());
    assert_eq!(d.read(5), Err(DecodeError::MalformedStream));
}

#[test]
fn reads_in_bounded_chunks() {
    let data = sample(10000, 9);
    let mut d = decoder_for(&compress(&data, 16, true));
    let mut all = Vec::new();
    loop {
        let chunk = d.read(7).unwrap();
        assert!(chunk.len() <= 7);
        all.extend_from_slice(&chunk);
        if chunk.len() < 7 {
            break;
        }
    }
    assert_eq!(all, data);
}

#[test]
fn input_fed_in_pieces() {
    let data = sample(20000, 11);
    let z = compress(&data, 12, true);
    for piece in [1usize, 2, 3, 5, 64, 1000] {
        let mut d = ZDecoder::new(z[..3].to_vec());
        let mut all = Vec::new();
        for part in z[3..].chunks(piece) {
            d.feed(&part.to_vec());
            loop {
                let chunk = d.read(100).unwrap();
                let short = chunk.len() < 100;
                all.extend_from_slice(&chunk);
                if short {
                    break;
                }
            }
        }
        assert_eq!(all, data, "piece {}", piece);
    }
}

#[test]
fn clear_then_old_code_fails_first_read() {
    let mut d = decoder_for(&[0x1f, 0x9d, 0x90, 0x61, 0xC4, 0x00, 0x0C, 0x08]);
    assert_eq!(d.read(8), Err(DecodeError::MalformedStream));
}

#[test]
fn code_256_without_block_mode_is_next_code() {
    let mut d = decoder_for(&[0x1f, 0x9d, 0x10, 0x61, 0x00, 0x02]);
    assert_eq!(d.read(8).unwrap(), b"aaa".to_vec());
    assert_eq!(d.read(8).unwrap(), Vec::<u8>::new());
}

#[test]
fn width_limit_outside_range_gives_nothing() {
    let data = b"abcabcabc";
    for flags in [0x88u8, 0x91, 0x9f, 0x00] {
        let mut z = compress(data, 16, true);
        z[2] = flags;
        assert_eq!(decode_all(z).unwrap(), Vec::<u8>::new(), "flags {:#x}", flags);
    }
    let mut d = decoder_for(b"hello world");
    assert_eq!(d.read(8).unwrap(), Vec::<u8>::new());
}

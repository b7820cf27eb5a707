use bevy_net::codec::{buffer_length, varint21_decode, varint32_decode, varint32_encode, varint32_length, Codec, Compression};
use bevy_net::Error;
use bytes::BytesMut;

fn encoded(value: i32) -> Vec<u8> {
    let mut out = Vec::new();
    assert!(varint32_encode(value, &mut out).is_ok());
    out
}

#[test]
fn varint32_length_counts_seven_bit_groups() {
    assert_eq!(varint32_length(0), 1);
    assert_eq!(varint32_length(1), 1);
    assert_eq!(varint32_length(127), 1);
    assert_eq!(varint32_length(128), 2);
    assert_eq!(varint32_length(16383), 2);
    assert_eq!(varint32_length(16384), 3);
    assert_eq!(varint32_length(2097151), 3);
    assert_eq!(varint32_length(2097152), 4);
    assert_eq!(varint32_length(268435455), 4);
    assert_eq!(varint32_length(268435456), 5);
    assert_eq!(varint32_length(i32::MAX), 5);
    assert_eq!(varint32_length(-1), 5);
    assert_eq!(varint32_length(i32::MIN), 5);
}

#[test]
fn varint32_encode_writes_low_groups_first() {
    assert_eq!(encoded(0), vec![0x00]);
    assert_eq!(encoded(1), vec![0x01]);
    assert_eq!(encoded(127), vec![0x7f]);
    assert_eq!(encoded(128), vec![0x80, 0x01]);
    assert_eq!(encoded(300), vec![0xac, 0x02]);
    assert_eq!(encoded(25565), vec![0xdd, 0xc7, 0x01]);
    assert_eq!(encoded(i32::MAX), vec![0xff, 0xff, 0xff, 0xff, 0x07]);
    let mut out = vec![9u8];
    assert!(varint32_encode(300, &mut out).is_ok());
    assert_eq!(out, vec![9, 0xac, 0x02]);
}

#[test]
fn varint32_length_matches_encoding() {
    for v in [0, 1, 127, 128, 255, 16383, 16384, 2097151, 2097152, 268435455, 268435456, i32::MAX] {
        assert_eq!(encoded(v).len(), varint32_length(v));
    }
}

#[test]
fn varint32_roundtrip_on_values() {
    for v in [0, 1, 127, 128, 300, 25565, 2097151, 2097152, 268435456, i32::MAX] {
        let mut bytes = encoded(v);
        bytes.extend_from_slice(&[0xff, 0x01]);
        let mut input: &[u8] = &bytes;
        assert_eq!(varint32_decode(&mut input).unwrap(), v);
        assert_eq!(input, &[0xff, 0x01]);
    }
}

#[test]
fn varint32_decode_reads_and_consumes() {
    let bytes = [0xac, 0x02, 0x05];
    let mut input: &[u8] = &bytes;
    assert_eq!(varint32_decode(&mut input).unwrap(), 300);
    assert_eq!(input, &[0x05]);
    assert_eq!(varint32_decode(&mut input).unwrap(), 5);
    assert!(input.is_empty());
}

#[test]
fn varint32_decode_wraps_to_32_bits() {
    // Five bytes carry 35 bits; the top three fall off and the sign bit is set.
    let bytes = [0xff, 0xff, 0xff, 0xff, 0x7f];
    let mut input: &[u8] = &bytes;
    assert_eq!(varint32_decode(&mut input).unwrap(), -1);
    assert!(input.is_empty());
}

#[test]
fn varint32_decode_stops_after_five_bytes() {
    // Five bytes that all continue are wider than 35 bits: the sixth is not read.
    let bytes = [0x80, 0x80, 0x80, 0x80, 0x80, 0x01];
    let mut input: &[u8] = &bytes;
    assert!(matches!(varint32_decode(&mut input), Err(Error::VarIntTooWide(35))));
    assert_eq!(input, &[0x01][..]);
}

#[test]
fn varint32_decode_errors() {
    let mut input: &[u8] = &[];
    assert!(matches!(varint32_decode(&mut input), Err(Error::Io(_))));
    let bytes = [0x80, 0x81];
    let mut input: &[u8] = &bytes;
    assert!(matches!(varint32_decode(&mut input), Err(Error::Io(_))));
    assert!(input.is_empty());
    let bytes = [0x80, 0x80, 0x80, 0x80, 0x80, 0x80, 0x01];
    let mut input: &[u8] = &bytes;
    assert!(matches!(varint32_decode(&mut input), Err(Error::VarIntTooWide(35))));
    assert_eq!(input, &[0x80, 0x01]);
}

#[test]
fn cut_off_varints_are_unexpected_eof() {
    let bytes = [0x80, 0x80];
    let mut input: &[u8] = &bytes;
    match varint32_decode(&mut input) {
        Err(Error::Io(e)) => assert_eq!(e.kind(), std::io::ErrorKind::UnexpectedEof),
        _ => panic!("expected an I/O error"),
    }
    assert!(input.is_empty());
    let bytes = [0x81];
    let mut input: &[u8] = &bytes;
    match varint21_decode(&mut input) {
        Err(Error::Io(e)) => assert_eq!(e.kind(), std::io::ErrorKind::UnexpectedEof),
        _ => panic!("expected an I/O error"),
    }
    assert!(input.is_empty());
}

#[test]
fn varint21_decode_reads_and_errors() {
    let bytes = [0xac, 0x02, 0x07];
    let mut input: &[u8] = &bytes;
    assert_eq!(varint21_decode(&mut input).unwrap(), 300);
    assert_eq!(input, &[0x07]);
    let bytes = [0xff, 0xff, 0x7f];
    let mut input: &[u8] = &bytes;
    assert_eq!(varint21_decode(&mut input).unwrap(), 2097151);
    let bytes = [0x80, 0x80];
    let mut input: &[u8] = &bytes;
    assert!(matches!(varint21_decode(&mut input), Err(Error::Io(_))));
    assert!(input.is_empty());
    // Three bytes that all continue are wider than 21 bits: the fourth is not read.
    let bytes = [0x80, 0x80, 0x80, 0x01];
    let mut input: &[u8] = &bytes;
    assert!(matches!(varint21_decode(&mut input), Err(Error::VarIntTooWide(21))));
    assert_eq!(input, &[0x01][..]);
    let bytes = [0xff, 0xff, 0xff, 0x7f];
    let mut input: &[u8] = &bytes;
    assert!(matches!(varint21_decode(&mut input), Err(Error::VarIntTooWide(21))));
    assert_eq!(input, &[0x7f][..]);
    let bytes = [0x80, 0x80, 0x80];
    let mut input: &[u8] = &bytes;
    assert!(matches!(varint21_decode(&mut input), Err(Error::VarIntTooWide(21))));
    assert!(input.is_empty());
}

#[test]
fn varint21_roundtrip_on_values() {
    for v in [0, 5, 128, 16383, 16384, 2097151] {
        let bytes = encoded(v);
        let mut input: &[u8] = &bytes;
        assert_eq!(varint21_decode(&mut input).unwrap(), v);
        assert!(input.is_empty());
    }
}

fn buffer(bytes: &[u8]) -> BytesMut {
    let mut b = BytesMut::new();
    b.extend_from_slice(bytes);
    b
}

#[test]
fn plain_frame_has_padded_header() {
    let mut codec = Codec::new();
    let mut dst = BytesMut::new();
    codec.encode(b"hello", &mut dst).unwrap();
    assert_eq!(&dst[..], &[0x85, 0x80, 0x00, b'h', b'e', b'l', b'l', b'o'][..]);
    let mut dst = buffer(&[1, 2]);
    codec.encode(&[7u8; 200], &mut dst).unwrap();
    assert_eq!(&dst[..5], &[1, 2, 0xc8, 0x81, 0x00][..]);
    assert_eq!(dst.len(), 2 + 3 + 200);
}

#[test]
fn plain_frame_roundtrip() {
    let mut codec = Codec::new();
    let mut buf = BytesMut::new();
    codec.encode(b"hello", &mut buf).unwrap();
    let packet = codec.decode(&mut buf).unwrap().unwrap();
    assert_eq!(packet, b"hello".to_vec());
    // The padded header is one byte longer than the minimal VarInt of 5,
    // which is all the decoder advances by: the last two bytes stay.
    assert_eq!(&buf[..], b"lo");
}

#[test]
fn long_plain_frames_follow_each_other() {
    let mut codec = Codec::new();
    let mut buf = BytesMut::new();
    let first = vec![1u8; 20000];
    let second = vec![2u8; 16384];
    codec.encode(&first, &mut buf).unwrap();
    codec.encode(&second, &mut buf).unwrap();
    assert_eq!(codec.decode(&mut buf).unwrap().unwrap(), first);
    assert_eq!(codec.decode(&mut buf).unwrap().unwrap(), second);
    assert!(buf.is_empty());
    assert!(codec.decode(&mut buf).unwrap().is_none());
}

#[test]
fn decode_waits_for_a_whole_frame() {
    let mut codec = Codec::new();
    let mut buf = buffer(&[0x85, 0x80, 0x00, b'h', b'e']);
    assert!(codec.decode(&mut buf).unwrap().is_none());
    assert_eq!(buf.len(), 5);
    let mut buf = buffer(&[0x85]);
    assert!(codec.decode(&mut buf).unwrap().is_none());
    let mut buf = BytesMut::new();
    assert!(codec.decode(&mut buf).unwrap().is_none());
    // Three continuing header bytes wait until three more bytes have come.
    let mut buf = buffer(&[0x80, 0x80, 0x80, 0, 0]);
    assert!(codec.decode(&mut buf).unwrap().is_none());
    assert_eq!(buf.len(), 5);
}

#[test]
fn decode_rejects_a_wide_header() {
    let mut codec = Codec::new();
    let mut buf = buffer(&[0x80, 0x80, 0x80, 0, 0, 0]);
    assert!(matches!(codec.decode(&mut buf), Err(Error::VarIntTooWide(21))));
    assert_eq!(buf.len(), 6);
}

#[test]
fn cut_off_inner_length_is_unexpected_eof() {
    let mut codec = Codec::default();
    codec.enable_compression(Compression::default(), 64);
    let mut buf = buffer(&[0x01, 0x80]);
    match codec.decode(&mut buf) {
        Err(Error::Io(e)) => assert_eq!(e.kind(), std::io::ErrorKind::UnexpectedEof),
        _ => panic!("expected an I/O error"),
    }
    assert_eq!(&buf[..], &[0x01, 0x80][..]);
}

#[test]
fn encode_keeps_what_the_buffer_held() {
    let mut codec = Codec::default();
    let mut dst = buffer(&[0xee]);
    codec.encode(&[1, 2, 3], &mut dst).unwrap();
    assert_eq!(&dst[..], &[0xee, 0x83, 0x80, 0x00, 1, 2, 3][..]);
    assert_eq!(buffer_length(&dst), 7);
    let mut codec = Codec::default();
    codec.enable_compression(Compression::default(), 64);
    let mut dst = BytesMut::new();
    codec.encode(&[1, 2, 3], &mut dst).unwrap();
    assert_eq!(&dst[..], &[0x84, 0x00, 0x00, 1, 2, 3][..]);
}

#[test]
fn empty_buffer_decodes_to_nothing() {
    let mut codec = Codec::default();
    codec.enable_compression(Compression::default(), 64);
    let mut buf = BytesMut::new();
    assert!(codec.decode(&mut buf).unwrap().is_none());
    assert_eq!(buffer_length(&buf), 0);
}

#[test]
fn short_compressed_mode_frame() {
    let mut codec = Codec::new();
    codec.enable_compression(Compression::default(), 256);
    let mut buf = BytesMut::new();
    codec.encode(b"hi", &mut buf).unwrap();
    assert_eq!(&buf[..], &[0x83, 0x00, 0x00, b'h', b'i'][..]);
    assert_eq!(codec.decode(&mut buf).unwrap().unwrap(), b"hi".to_vec());
}

#[test]
fn short_compressed_mode_frames_follow_each_other() {
    let mut codec = Codec::new();
    codec.enable_compression(Compression::fast(), 1000);
    let mut buf = BytesMut::new();
    let first = vec![3u8; 300];
    let second = vec![4u8; 500];
    codec.encode(&first, &mut buf).unwrap();
    codec.encode(&second, &mut buf).unwrap();
    assert_eq!(codec.decode(&mut buf).unwrap().unwrap(), first);
    assert_eq!(codec.decode(&mut buf).unwrap().unwrap(), second);
    assert!(buf.is_empty());
}

#[test]
fn compressed_frame_roundtrip() {
    let mut codec = Codec::new();
    codec.enable_compression(Compression::best(), 64);
    let item: Vec<u8> = (0..1000u32).map(|i| (i % 7) as u8).collect();
    let mut buf = BytesMut::new();
    codec.encode(&item, &mut buf).unwrap();
    // The frame starts with the length of what follows, then the length of the data.
    assert!(buf.len() < item.len());
    let mut header: &[u8] = &buf[..];
    let rest_len = varint32_decode(&mut header).unwrap() as usize;
    assert_eq!(header.len(), rest_len);
    assert_eq!(varint32_decode(&mut header).unwrap(), 1000);
    assert_eq!(header[0], 0x78);
    buf.extend_from_slice(&[0xaa]);
    assert_eq!(codec.decode(&mut buf).unwrap().unwrap(), item);
    assert_eq!(&buf[..], &[0xaa][..]);
}

#[test]
fn compressed_frame_with_broken_stream_is_an_error() {
    let mut codec = Codec::new();
    codec.enable_compression(Compression::default(), 0);
    // Length 4: data length 3, then three bytes that are no zlib stream.
    let mut buf = buffer(&[0x04, 0x03, 0x01, 0x02, 0x03]);
    assert!(matches!(codec.decode(&mut buf), Err(Error::Io(_))));
    assert_eq!(buf.len(), 5);
}

#[test]
fn compressed_frame_with_wide_length_is_an_error() {
    let mut codec = Codec::new();
    codec.enable_compression(Compression::default(), 0);
    let mut buf = buffer(&[0x06, 0x80, 0x80, 0x80, 0x80, 0x80, 0x80]);
    assert!(matches!(codec.decode(&mut buf), Err(Error::VarIntTooWide(35))));
    let mut buf = buffer(&[0x00]);
    assert!(matches!(codec.decode(&mut buf), Err(Error::Io(_))));
}

#[test]
fn encrypted_frames_roundtrip() {
    let key = [0x42u8; 16];
    let mut writer = Codec::new();
    let mut reader = Codec::new();
    writer.enable_encryption(&key);
    reader.enable_encryption(&key);
    let mut buf = BytesMut::new();
    writer.encode(&[9u8; 20000], &mut buf).unwrap();
    let first_len = buf.len();
    assert_eq!(first_len, 3 + 20000);
    writer.encode(b"hello world", &mut buf).unwrap();
    assert_eq!(buf.len(), first_len + 3 + 11);
    assert_ne!(&buf[first_len + 3..], b"hello world");
    assert_eq!(reader.decode(&mut buf).unwrap().unwrap(), vec![9u8; 20000]);
    assert_eq!(reader.decode(&mut buf).unwrap().unwrap(), b"hello world".to_vec());
    // The padded header of the short frame leaves its last two (decrypted) bytes.
    assert_eq!(&buf[..], b"ld");
}

#[test]
fn encryption_stream_moves_on() {
    let key = [0x11u8; 16];
    let mut writer = Codec::new();
    writer.enable_encryption(&key);
    let mut first = BytesMut::new();
    writer.encode(&[1u8; 32], &mut first).unwrap();
    let mut second = BytesMut::new();
    writer.encode(&[1u8; 32], &mut second).unwrap();
    assert_eq!(first.len(), second.len());
    assert_ne!(&first[..], &second[..]);
}

#[test]
fn encrypted_frames_arrive_in_pieces() {
    let key = [7u8; 16];
    let mut writer = Codec::new();
    let mut reader = Codec::new();
    writer.enable_encryption(&key);
    writer.enable_compression(Compression::default(), 16);
    reader.enable_encryption(&key);
    reader.enable_compression(Compression::default(), 16);
    let item = vec![5u8; 100];
    let mut sealed = BytesMut::new();
    writer.encode(&item, &mut sealed).unwrap();
    let mut buf = BytesMut::new();
    buf.extend_from_slice(&sealed[..2]);
    assert!(reader.decode(&mut buf).unwrap().is_none());
    buf.extend_from_slice(&sealed[2..]);
    assert_eq!(reader.decode(&mut buf).unwrap().unwrap(), item);
    assert!(buf.is_empty());
}

#[test]
fn encrypted_stream_arrives_byte_by_byte() {
    let key = [3u8; 16];
    let mut writer = Codec::new();
    let mut reader = Codec::new();
    writer.enable_encryption(&key);
    reader.enable_encryption(&key);
    let items: Vec<Vec<u8>> = vec![vec![1u8; 20000], vec![2u8; 16384], vec![3u8; 30000]];
    let mut sealed = BytesMut::new();
    for item in &items {
        writer.encode(item, &mut sealed).unwrap();
    }
    let mut buf = BytesMut::new();
    let mut got = Vec::new();
    for i in 0..sealed.len() {
        buf.extend_from_slice(&sealed[i..i + 1]);
        while let Some(p) = reader.decode(&mut buf).unwrap() {
            got.push(p);
        }
        assert_eq!(reader.decrypted_bytes(), buf.len());
    }
    assert_eq!(got, items);
    assert!(buf.is_empty());
}

#[test]
fn partly_arrived_stream_is_left_decrypted() {
    let key = [9u8; 16];
    let mut plain_writer = Codec::new();
    let mut writer = Codec::new();
    let mut reader = Codec::new();
    writer.enable_encryption(&key);
    reader.enable_encryption(&key);
    let mut plain = BytesMut::new();
    let mut sealed = BytesMut::new();
    for item in [vec![4u8; 20000], vec![5u8; 17000]] {
        plain_writer.encode(&item, &mut plain).unwrap();
        writer.encode(&item, &mut sealed).unwrap();
    }
    // The first frame and ten bytes of the second arrive: the first frame
    // comes out, and the ten bytes stay, decrypted.
    let cut = 3 + 20000 + 10;
    let mut buf = BytesMut::new();
    buf.extend_from_slice(&sealed[..cut]);
    assert_eq!(reader.decode(&mut buf).unwrap().unwrap(), vec![4u8; 20000]);
    assert!(reader.decode(&mut buf).unwrap().is_none());
    assert_eq!(&buf[..], &plain[3 + 20000..cut]);
    assert_eq!(reader.decrypted_bytes(), 10);
    buf.extend_from_slice(&sealed[cut..]);
    assert_eq!(reader.decode(&mut buf).unwrap().unwrap(), vec![5u8; 17000]);
    assert!(buf.is_empty());
}

#[test]
fn compression_levels() {
    assert_eq!(Compression::none().level(), 0);
    assert_eq!(Compression::fast().level(), 1);
    assert_eq!(Compression::best().level(), 9);
    assert_eq!(Compression::default().level(), 6);
    assert_eq!(Compression::new(4).level(), 4);
}

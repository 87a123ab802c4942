use audio_sort::audio::Audio;
use audio_sort::error::{DecodeErrorKind, DecodeStage};

/// A WAV file with IMA ADPCM blocks of 36 bytes, 65 frames each, one channel.
fn adpcm_wav_file(rate: u32, blocks: &[[u8; 36]]) -> Vec<u8> {
    let data_len = (blocks.len() * 36) as u32;
    let mut bytes = Vec::new();
    bytes.extend_from_slice(b"RIFF");
    bytes.extend_from_slice(&(4 + 8 + 20 + 8 + data_len).to_le_bytes());
    bytes.extend_from_slice(b"WAVE");
    bytes.extend_from_slice(b"fmt ");
    bytes.extend_from_slice(&20u32.to_le_bytes());
    bytes.extend_from_slice(&0x0011u16.to_le_bytes());
    bytes.extend_from_slice(&1u16.to_le_bytes());
    bytes.extend_from_slice(&rate.to_le_bytes());
    bytes.extend_from_slice(&(rate * 36 / 65).to_le_bytes());
    bytes.extend_from_slice(&36u16.to_le_bytes());
    bytes.extend_from_slice(&4u16.to_le_bytes());
    bytes.extend_from_slice(&2u16.to_le_bytes());
    bytes.extend_from_slice(&65u16.to_le_bytes());
    bytes.extend_from_slice(b"data");
    bytes.extend_from_slice(&data_len.to_le_bytes());
    for block in blocks {
        bytes.extend_from_slice(block);
    }
    bytes
}

/// An ADPCM block that starts at `predictor` with step index `step_index`
/// and holds still from there.
fn adpcm_block(predictor: i16, step_index: u8) -> [u8; 36] {
    let mut block = [0u8; 36];
    block[..2].copy_from_slice(&predictor.to_le_bytes());
    block[2] = step_index;
    block
}

/// The checksum of an Ogg page.
fn ogg_checksum(page: &[u8]) -> u32 {
    let mut crc: u32 = 0;
    for byte in page {
        crc ^= (*byte as u32) << 24;
        for _ in 0..8 {
            crc = if crc & 0x8000_0000 != 0 { (crc << 1) ^ 0x04c1_1db7 } else { crc << 1 };
        }
    }
    crc
}

/// An Ogg page that holds one packet.
fn ogg_page(flags: u8, granule: u64, sequence: u32, packet: &[u8]) -> Vec<u8> {
    ogg_page_of(0x1234_5678, flags, granule, sequence, packet)
}

/// An Ogg page of the stream `serial` that holds one packet.
fn ogg_page_of(serial: u32, flags: u8, granule: u64, sequence: u32, packet: &[u8]) -> Vec<u8> {
    assert!(packet.len() < 255);
    let mut page = Vec::new();
    page.extend_from_slice(b"OggS");
    page.push(0);
    page.push(flags);
    page.extend_from_slice(&granule.to_le_bytes());
    page.extend_from_slice(&serial.to_le_bytes());
    page.extend_from_slice(&sequence.to_le_bytes());
    page.extend_from_slice(&0u32.to_le_bytes());
    page.push(1);
    page.push(packet.len() as u8);
    page.extend_from_slice(packet);
    let crc = ogg_checksum(&page);
    page[22..26].copy_from_slice(&crc.to_le_bytes());
    page
}

/// The identification header of an Opus stream of two channels.
fn opus_head() -> Vec<u8> {
    let mut head = Vec::new();
    head.extend_from_slice(b"OpusHead");
    head.push(1);
    head.push(2);
    head.extend_from_slice(&0u16.to_le_bytes());
    head.extend_from_slice(&48_000u32.to_le_bytes());
    head.extend_from_slice(&0u16.to_le_bytes());
    head.push(0);
    head
}

/// The comment header of an Opus stream.
fn opus_tags() -> Vec<u8> {
    let mut tags = Vec::new();
    tags.extend_from_slice(b"OpusTags");
    tags.extend_from_slice(&4u32.to_le_bytes());
    tags.extend_from_slice(b"test");
    tags.extend_from_slice(&0u32.to_le_bytes());
    tags
}

/// An Ogg file with one Opus stream of one packet.
fn ogg_opus_file() -> Vec<u8> {
    let mut head = Vec::new();
    head.extend_from_slice(b"OpusHead");
    head.push(1);
    head.push(2);
    head.extend_from_slice(&0u16.to_le_bytes());
    head.extend_from_slice(&48_000u32.to_le_bytes());
    head.extend_from_slice(&0u16.to_le_bytes());
    head.push(0);
    let mut tags = Vec::new();
    tags.extend_from_slice(b"OpusTags");
    tags.extend_from_slice(&4u32.to_le_bytes());
    tags.extend_from_slice(b"test");
    tags.extend_from_slice(&0u32.to_le_bytes());
    let mut bytes = ogg_page(0x02, 0, 0, &head);
    bytes.extend_from_slice(&ogg_page(0x00, 0, 1, &tags));
    bytes.extend_from_slice(&ogg_page(0x04, 480, 2, &[0x00, 0x01, 0x02, 0x03]));
    bytes
}

/// A Matroska file whose segment lists no track.
fn matroska_file_without_tracks() -> Vec<u8> {
    let mut bytes = vec![0x1a, 0x45, 0xdf, 0xa3, 0x8b, 0x42, 0x82, 0x88];
    bytes.extend_from_slice(b"matroska");
    // the segment, with its timestamp scale and an empty list of tracks
    bytes.extend_from_slice(&[0x18, 0x53, 0x80, 0x67, 0x94]);
    bytes.extend_from_slice(&[0x15, 0x49, 0xa9, 0x66, 0x87, 0x2a, 0xd7, 0xb1, 0x83, 0x0f, 0x42, 0x40]);
    bytes.extend_from_slice(&[0x16, 0x54, 0xae, 0x6b, 0x83, 0xec, 0x81, 0x00]);
    bytes
}

#[test]
fn adpcm_file_decodes_to_its_samples() {
    let bytes = adpcm_wav_file(44_100, &[adpcm_block(1000, 0), adpcm_block(-2000, 0)]);
    let audio = Audio::from_file("voice.wav".to_string(), Some(bytes))
        .expect("a well-formed file decodes");
    let mut expected = vec![1000i16; 65];
    expected.extend_from_slice(&[-2000i16; 65]);
    assert_eq!(audio.pcm(), expected.as_slice());
}

#[test]
fn packet_that_cannot_be_decoded_fails_the_file() {
    let bytes = adpcm_wav_file(44_100, &[adpcm_block(1000, 0), adpcm_block(0, 200)]);
    let error = Audio::from_file("dir/broken.wav".to_string(), Some(bytes))
        .expect_err("the second block is damaged");
    assert_eq!(error.kind, DecodeErrorKind::UnsupportedOrCorruptFormat);
    assert_eq!(error.stage, DecodeStage::DecodePacket);
    assert_eq!(error.path, "dir/broken.wav");
    assert_eq!(error.message(), "failed to decode packet in file: broken.wav");
}

#[test]
fn codec_without_decoder_is_decoder_unavailable() {
    let error = Audio::from_file("song.opus".to_string(), Some(ogg_opus_file()))
        .expect_err("no decoder for this codec");
    assert_eq!(error.kind, DecodeErrorKind::DecoderUnavailable);
    assert_eq!(error.stage, DecodeStage::CreateDecoder);
    assert_eq!(error.message(), "failed to create decoder for file: song.opus");
}

#[test]
fn container_without_tracks_is_no_decodable_track() {
    let error = Audio::from_file("film.mkv".to_string(), Some(matroska_file_without_tracks()))
        .expect_err("no track");
    assert_eq!(error.kind, DecodeErrorKind::NoDecodableTrack);
    assert_eq!(error.stage, DecodeStage::SelectTrack);
    assert_eq!(error.message(), "no default track in file: film.mkv");
}

#[test]
fn damaged_page_is_refused() {
    let mut bytes = ogg_opus_file();
    bytes[30] ^= 0xff;
    let error = Audio::from_file("song.opus".to_string(), Some(bytes)).expect_err("bad checksum");
    assert_eq!(error.kind, DecodeErrorKind::UnsupportedOrCorruptFormat);
    assert_eq!(error.stage, DecodeStage::Identify);
}

/// Packs values into bytes, each value from the lowest free bit up.
fn pack_bits(fields: &[(u32, u32)]) -> Vec<u8> {
    let mut bytes = Vec::new();
    let mut used = 0;
    for (value, width) in fields {
        for bit in 0..*width {
            if used % 8 == 0 {
                bytes.push(0u8);
            }
            if (value >> bit) & 1 == 1 {
                *bytes.last_mut().unwrap() |= 1 << (used % 8);
            }
            used += 1;
        }
    }
    bytes
}

/// The three headers of a Vorbis stream of two channels at 44,100 Hz with
/// blocks of 256 samples.
fn vorbis_headers() -> [Vec<u8>; 3] {
    let mut ident = Vec::new();
    ident.extend_from_slice(b"\x01vorbis");
    ident.extend_from_slice(&0u32.to_le_bytes());
    ident.push(2);
    ident.extend_from_slice(&44_100u32.to_le_bytes());
    ident.extend_from_slice(&[0; 12]);
    ident.push(0x88);
    ident.push(1);
    let mut comment = Vec::new();
    comment.extend_from_slice(b"\x03vorbis");
    comment.extend_from_slice(&4u32.to_le_bytes());
    comment.extend_from_slice(b"test");
    comment.extend_from_slice(&0u32.to_le_bytes());
    comment.push(1);
    let mut setup = Vec::new();
    setup.extend_from_slice(b"\x05vorbis");
    setup.extend_from_slice(&pack_bits(&[
        // one codebook: one dimension, two entries of one bit each, no lookup
        (0, 8),
        (0x56_4342, 24),
        (1, 16),
        (2, 24),
        (0, 1),
        (0, 1),
        (0, 5),
        (0, 5),
        (0, 4),
        // one time-domain transform, a placeholder
        (0, 6),
        (0, 16),
        // one floor of type 1 without partitions
        (0, 6),
        (1, 16),
        (0, 5),
        (0, 2),
        (7, 4),
        // one residue of type 0 that covers nothing
        (0, 6),
        (0, 16),
        (0, 24),
        (0, 24),
        (0, 24),
        (0, 6),
        (0, 8),
        (0, 3),
        (0, 1),
        // one mapping: one submap, no coupling
        (0, 6),
        (0, 16),
        (0, 1),
        (0, 1),
        (0, 2),
        (0, 8),
        (0, 8),
        (0, 8),
        // one mode with short blocks
        (0, 6),
        (0, 1),
        (0, 16),
        (0, 16),
        (0, 8),
        // framing
        (1, 1),
    ]));
    [ident, comment, setup]
}

/// An Ogg file with one Vorbis stream of `packets` audio packets, each of
/// which leaves both channels silent.
fn ogg_vorbis_file(packets: u32) -> Vec<u8> {
    let [ident, comment, setup] = vorbis_headers();
    let mut bytes = ogg_page(0x02, 0, 0, &ident);
    bytes.extend_from_slice(&ogg_page(0x00, 0, 1, &comment));
    bytes.extend_from_slice(&ogg_page(0x00, 0, 2, &setup));
    for packet in 0..packets {
        let last = packet + 1 == packets;
        let granule = 128 * packet as u64;
        // an audio packet of the only mode, with both floors unused
        let flags = if last { 0x04 } else { 0x00 };
        bytes.extend_from_slice(&ogg_page(flags, granule, 3 + packet, &[0x00]));
    }
    bytes
}

#[test]
fn two_channel_vorbis_stream_decodes() {
    let audio = Audio::from_file("quiet.ogg".to_string(), Some(ogg_vorbis_file(5)))
        .expect("a well-formed stream decodes");
    // the first packet gives no frame, each of the others half a block
    assert_eq!(audio.pcm().len(), 4 * 128);
    assert!(audio.pcm().iter().all(|sample| *sample == 0));
}

#[test]
fn vorbis_stream_of_one_packet_gives_no_record() {
    let error = Audio::from_file("short.ogg".to_string(), Some(ogg_vorbis_file(1)))
        .expect_err("the first packet of a stream gives no frame");
    assert_eq!(error.kind, DecodeErrorKind::UnsupportedOrCorruptFormat);
    assert_eq!(error.stage, DecodeStage::DecodePacket);
}

/// An Ogg file with a Vorbis stream, which is its default track, and an Opus
/// stream beside it. After each of the `packets` audio packets of the Vorbis
/// stream comes a packet of the Opus stream.
fn ogg_file_with_two_tracks(packets: u32) -> Vec<u8> {
    let [ident, comment, setup] = vorbis_headers();
    let mut bytes = ogg_page_of(1, 0x02, 0, 0, &ident);
    bytes.extend_from_slice(&ogg_page_of(2, 0x02, 0, 0, &opus_head()));
    bytes.extend_from_slice(&ogg_page_of(1, 0x00, 0, 1, &comment));
    bytes.extend_from_slice(&ogg_page_of(1, 0x00, 0, 2, &setup));
    bytes.extend_from_slice(&ogg_page_of(2, 0x00, 0, 1, &opus_tags()));
    for packet in 0..packets {
        let last = packet + 1 == packets;
        let flags = if last { 0x04 } else { 0x00 };
        bytes.extend_from_slice(&ogg_page_of(1, flags, 128 * packet as u64, 3 + packet, &[0x00]));
        let granule = 480 * (packet as u64 + 1);
        bytes.extend_from_slice(&ogg_page_of(2, flags, granule, 2 + packet, &[0x00, 1, 2, 3]));
    }
    bytes
}

#[test]
fn packets_of_other_tracks_are_passed_over() {
    let audio = Audio::from_file("both.ogg".to_string(), Some(ogg_file_with_two_tracks(5)))
        .expect("the default track decodes");
    // ten packets in the stream, five of them of the default track
    assert_eq!(audio.pcm().len(), 4 * 128);
    assert!(audio.pcm().iter().all(|sample| *sample == 0));
}

//! The boundary to the demuxers and decoders of `symphonia`, and to the path
//! handling of the standard library.
//!
//! Nothing in this module is proved. Each item states what is taken on trust
//! about the code that it calls.
//!
//! The demuxers and decoders work on bytes in memory with a fixed set of
//! formats and codecs, so what they give is a function of the bytes. The
//! functions without a body below give those results a name; a result of
//! `None` stands for a call that does not return, and each wrapper asks of its
//! caller that its own call does.

use vstd::prelude::*;
use crate::pcm::ChunkView;

verus! {

/// `symphonia::core::probe::Hint`: what is known about a source besides its
/// bytes.
#[verifier::external_type_specification]
#[verifier::external_body]
pub struct ExHint(symphonia::core::probe::Hint);

/// `symphonia::core::probe::ProbeResult`: the reader of the container format
/// that a probe found, with the metadata read on the way.
#[verifier::external_type_specification]
#[verifier::external_body]
pub struct ExProbeResult(symphonia::core::probe::ProbeResult);

/// `symphonia::core::errors::Error`: why a demuxer or decoder gave up.
#[verifier::external_type_specification]
#[verifier::external_body]
pub struct ExError(symphonia::core::errors::Error);

/// A decoder that the codec registry of `symphonia` made. It is a trait
/// object, which the verifier cannot look into, and it holds the audio of the
/// packet that it decoded last.
#[verifier::external_body]
pub struct PacketDecoder {
    inner: Box<dyn symphonia::core::codecs::Decoder>,
}

/// The default track of a container, as its reader describes it: a
/// `symphonia::core::formats::Track`, kept closed so that what is said of it
/// is said of this track of this container and of no other value.
#[verifier::external_body]
pub struct DefaultTrack {
    inner: symphonia::core::formats::Track,
}

/// A packet that a reader handed out: a `symphonia::core::formats::Packet`,
/// kept closed so that what is said of it is said of this packet of this
/// stream and of no other value.
#[verifier::external_body]
pub struct StreamPacket {
    inner: symphonia::core::formats::Packet,
}

/// The frame count, the channel count and the sampling rate of decoded audio.
pub struct SignalShape {
    pub frames: usize,
    pub channels: usize,
    pub rate: u32,
}

/// What asking a reader for its next packet gives.
pub enum Fetched {
    /// The next packet.
    Packet(StreamPacket),
    /// The stream has ended.
    End,
    /// The reader cannot go on.
    Fault,
}

/// What asking a reader for its next packet gives, without the packet.
pub enum Fetch {
    Packet,
    End,
    Fault,
}

/// Whether the default probe finds a container format in `bytes`.
pub uninterp spec fn probe_result(bytes: Seq<u8>) -> Option<bool>;

/// The identifier of the default track of the reader that the probe makes for
/// `bytes`, or `None` where the container has no track.
pub uninterp spec fn track_result(bytes: Seq<u8>) -> Option<u32>;

/// Whether the default codec registry makes a decoder for the default track
/// of `bytes`.
pub uninterp spec fn decoder_result(bytes: Seq<u8>) -> Option<bool>;

/// What the reader for `bytes` gives when it is asked for a packet after it
/// has handed out `index` of them.
pub uninterp spec fn fetch_result(bytes: Seq<u8>, index: nat) -> Option<Fetch>;

/// The identifier of the track that the packet `index` of the stream of
/// `bytes` belongs to.
pub uninterp spec fn packet_track(bytes: Seq<u8>, index: nat) -> u32;

/// What the decoder for the default track of `bytes` gives for the packet
/// `index` of the stream, after it has decoded the packets of its track
/// before it in order: the decoded audio as interleaved 16-bit samples, or
/// `None` inside for a packet that it refuses.
pub uninterp spec fn decode_result(bytes: Seq<u8>, index: nat) -> Option<Option<ChunkView>>;

/// The file extension that a hint holds, if it holds one.
pub uninterp spec fn hinted_extension(hint: symphonia::core::probe::Hint) -> Option<Seq<char>>;

/// The bytes that a reader reads, and the number of packets that it has
/// handed out.
pub uninterp spec fn reader_at(reader: symphonia::core::probe::ProbeResult) -> (Seq<u8>, nat);

/// The bytes of the container whose default track this is.
pub uninterp spec fn track_at(track: DefaultTrack) -> Seq<u8>;

/// The bytes that a packet was read from, and its place among their packets.
pub uninterp spec fn packet_at(packet: StreamPacket) -> (Seq<u8>, nat);

/// The bytes for whose default track a decoder was made, and the place in
/// their stream up to which it has decoded the packets of its track.
pub uninterp spec fn decoder_at(decoder: PacketDecoder) -> (Seq<u8>, nat);

/// The number of frames of the audio that a decoder holds.
pub uninterp spec fn held_frames(decoder: PacketDecoder) -> nat;

/// The number of channels of the audio that a decoder holds.
pub uninterp spec fn held_channels(decoder: PacketDecoder) -> nat;

/// The audio that a decoder holds, as interleaved 16-bit samples.
pub uninterp spec fn held_audio(decoder: PacketDecoder) -> Seq<i16>;

/// The packet `index` of the stream of `bytes` belongs to their default
/// track.
pub open spec fn of_default_track(bytes: Seq<u8>, index: nat) -> bool {
    Some(packet_track(bytes, index)) == track_result(bytes)
}

/// None of the packets from `from` up to `to` belongs to the default track.
pub open spec fn passed_over(bytes: Seq<u8>, from: nat, to: nat) -> bool {
    &&& from <= to
    &&& forall|i: nat| from <= i < to ==> !#[trigger] of_default_track(bytes, i)
}

/// `Hint::new` gives a hint that holds no extension.
pub assume_specification[ symphonia::core::probe::Hint::new ]() -> (hint:
    symphonia::core::probe::Hint)
    ensures
        hinted_extension(hint) is None,
;

/// `Hint::with_extension` stores a copy of the extension in the hint.
#[verifier::external_body]
pub(crate) fn hint_with_extension(hint: &mut symphonia::core::probe::Hint, extension: &str)
    ensures
        hinted_extension(*final(hint)) == Some(extension@),
{
    hint.with_extension(extension);
}

/// `Path::extension` of the standard library: the part of the file name after
/// its last dot, if the path has a file name with such a part. Where the
/// components of a path end depends on the platform, so nothing is claimed of
/// the result.
#[verifier::external_body]
pub(crate) fn path_extension(path: &str) -> (extension: Option<String>) {
    std::path::Path::new(path).extension().map(|e| e.to_string_lossy().into_owned())
}

/// The `len` characters of `whole` that begin at `start`.
pub open spec fn stretch(whole: Seq<char>, start: int, len: nat) -> Seq<char> {
    whole.subrange(start, start + len)
}

/// `part` stands somewhere in `whole`, in one piece.
pub open spec fn is_part_of(part: Seq<char>, whole: Seq<char>) -> bool {
    exists|start: int|
        0 <= start && start + part.len() <= whole.len() && #[trigger] stretch(
            whole,
            start,
            part.len(),
        ) == part
}

/// The path ends in the component `..`.
pub open spec fn ends_in_parent(path: Seq<char>) -> bool {
    let n = path.len() as int;
    &&& n >= 2
    &&& path[n - 1] == '.'
    &&& path[n - 2] == '.'
    &&& (n == 2 || path[n - 3] == '/')
}

/// A path that Unix and Windows read alike: `/` is what parts its components,
/// and nothing in it can be the name of a volume or of a server.
pub open spec fn is_plain_path(path: Seq<char>) -> bool {
    &&& !path.contains('\\')
    &&& !path.contains(':')
    &&& !(path.len() >= 2 && path[0] == '/' && path[1] == '/')
}

/// The path without what its end holds besides a name: separators, and
/// components that are a single dot.
pub open spec fn without_trailing(path: Seq<char>) -> Seq<char>
    decreases path.len(),
{
    if path.len() == 0 {
        path
    } else if path.last() == '/' {
        without_trailing(path.drop_last())
    } else if path.len() >= 2 && path.last() == '.' && path[path.len() - 2] == '/' {
        without_trailing(path.drop_last())
    } else {
        path
    }
}

/// What follows the last separator of the path.
pub open spec fn last_piece(path: Seq<char>) -> Seq<char>
    decreases path.len(),
{
    if path.len() == 0 || path.last() == '/' {
        Seq::empty()
    } else {
        last_piece(path.drop_last()).push(path.last())
    }
}

/// The file name of a plain path: its last component, unless the path has
/// none or ends in a component of one or two dots.
pub open spec fn file_name_of(path: Seq<char>) -> Option<Seq<char>> {
    let piece = last_piece(without_trailing(path));
    if piece.len() == 0 || piece == seq!['.'] || piece == seq!['.', '.'] {
        None
    } else {
        Some(piece)
    }
}

/// `Path::file_name` of the standard library: the last component of the path,
/// if it has one that is a name. Such a name is a piece of the path and is
/// not empty. On Unix and on Windows a path without `\` parts at each `/`, so
/// that its name holds none, and has no name where it is empty or ends in
/// `..`. For a plain path, which neither of them reads as beginning with a
/// volume or a server, the name is what the documentation of `Path` says of
/// components: separators at the end and components of a single dot are left
/// out, and the last component that remains is the name, unless it is `..`.
#[verifier::external_body]
pub(crate) fn path_file_name(path: &str) -> (name: Option<String>)
    ensures
        name matches Some(n) ==> is_part_of(n@, path@) && n@.len() > 0,
        !path@.contains('\\') ==> (name matches Some(n) ==> !n@.contains('/')),
        !path@.contains('\\') && (path@.len() == 0 || ends_in_parent(path@)) ==> name is None,
        is_plain_path(path@) ==> file_name_of(path@) == match name {
            Some(n) => Some(n@),
            None => None::<Seq<char>>,
        },
{
    std::path::Path::new(path).file_name().and_then(|n| n.to_str()).map(|n| n.to_string())
}

/// `Probe::format` on the default probe of `symphonia`, over a
/// `MediaSourceStream` that reads `bytes` from memory: looks for a container
/// format that it knows and makes a reader for it, which has handed out no
/// packet yet. The probe does not read its hint.
#[verifier::external_body]
pub(crate) fn probe_format(hint: &symphonia::core::probe::Hint, bytes: Vec<u8>) -> (probed: Result<
    symphonia::core::probe::ProbeResult,
    symphonia::core::errors::Error,
>)
    requires
        probe_result(bytes@) is Some,
    ensures
        probed is Ok <==> probe_result(bytes@) == Some(true),
        probed matches Ok(reader) ==> reader_at(reader) == (bytes@, 0nat),
{
    let stream = symphonia::core::io::MediaSourceStream::new(
        Box::new(std::io::Cursor::new(bytes)),
        symphonia::core::io::MediaSourceStreamOptions::default(),
    );
    symphonia::default::get_probe().format(
        hint,
        stream,
        &symphonia::core::formats::FormatOptions::default(),
        &symphonia::core::meta::MetadataOptions::default(),
    )
}

/// `FormatReader::default_track`, on a reader that has handed out no packet:
/// a copy of the track that the reader takes for the default one, or `None`
/// where the container has no track.
#[verifier::external_body]
pub(crate) fn default_track(probed: &symphonia::core::probe::ProbeResult) -> (track: Option<
    DefaultTrack,
>)
    requires
        reader_at(*probed).1 == 0,
    ensures
        track is Some <==> track_result(reader_at(*probed).0) is Some,
        track matches Some(t) ==> track_at(t) == reader_at(*probed).0,
{
    probed.format.default_track().cloned().map(|inner| DefaultTrack { inner })
}

/// The field `id` of a `Track`: the identifier of the track.
#[verifier::external_body]
pub(crate) fn track_id(track: &DefaultTrack) -> (id: u32)
    ensures
        track_result(track_at(*track)) == Some(id),
{
    track.inner.id
}

/// `CodecRegistry::make` on the default registry of `symphonia`: a decoder
/// for the codec that the parameters of the track name, if one is registered
/// and takes the parameters. The decoder has decoded nothing yet.
#[verifier::external_body]
pub(crate) fn make_decoder(track: &DefaultTrack) -> (made: Result<
    PacketDecoder,
    symphonia::core::errors::Error,
>)
    requires
        decoder_result(track_at(*track)) is Some,
    ensures
        made is Ok <==> decoder_result(track_at(*track)) == Some(true),
        made matches Ok(decoder) ==> decoder_at(decoder) == (track_at(*track), 0nat),
{
    let options = symphonia::core::codecs::DecoderOptions::default();
    symphonia::default::get_codecs().make(&track.inner.codec_params, &options).map(
        |inner| PacketDecoder { inner },
    )
}

/// `FormatReader::next_packet`: the next packet of the container. An error
/// of the kind that `symphonia` gives at the end of a stream, an I/O error
/// for an unexpected end of file, is told from every other error.
#[verifier::external_body]
pub(crate) fn next_packet(probed: &mut symphonia::core::probe::ProbeResult) -> (fetched: Fetched)
    requires
        fetch_result(reader_at(*old(probed)).0, reader_at(*old(probed)).1) is Some,
    ensures
        reader_at(*final(probed)).0 == reader_at(*old(probed)).0,
        fetch_result(reader_at(*old(probed)).0, reader_at(*old(probed)).1) == Some(
            match fetched {
                Fetched::Packet(_) => Fetch::Packet,
                Fetched::End => Fetch::End,
                Fetched::Fault => Fetch::Fault,
            },
        ),
        fetched matches Fetched::Packet(packet) ==> {
            &&& packet_at(packet) == reader_at(*old(probed))
            &&& reader_at(*final(probed)).1 == reader_at(*old(probed)).1 + 1
        },
{
    match probed.format.next_packet() {
        Ok(inner) => Fetched::Packet(StreamPacket { inner }),
        Err(symphonia::core::errors::Error::IoError(e))
            if e.kind() == std::io::ErrorKind::UnexpectedEof => Fetched::End,
        Err(_) => Fetched::Fault,
    }
}

/// `Packet::track_id`: the identifier of the track that the packet belongs to.
#[verifier::external_body]
pub(crate) fn packet_track_id(packet: &StreamPacket) -> (id: u32)
    ensures
        id == packet_track(packet_at(*packet).0, packet_at(*packet).1),
{
    packet.inner.track_id()
}

/// `Decoder::decode`: decodes a packet of the track of the decoder, which has
/// decoded the packets of its track before this one. On success the decoder
/// holds the decoded audio, and the result tells its frame count, channel
/// count and sampling rate.
#[verifier::external_body]
pub(crate) fn decode_packet(decoder: &mut PacketDecoder, packet: &StreamPacket) -> (shape: Result<
    SignalShape,
    symphonia::core::errors::Error,
>)
    requires
        decoder_at(*old(decoder)).0 == packet_at(*packet).0,
        passed_over(packet_at(*packet).0, decoder_at(*old(decoder)).1, packet_at(*packet).1),
        of_default_track(packet_at(*packet).0, packet_at(*packet).1),
        decode_result(packet_at(*packet).0, packet_at(*packet).1) is Some,
    ensures
        shape is Err ==> decode_result(packet_at(*packet).0, packet_at(*packet).1) == Some(
            None::<ChunkView>,
        ),
        shape matches Ok(s) ==> {
            &&& decode_result(packet_at(*packet).0, packet_at(*packet).1) == Some(
                Some(
                    ChunkView {
                        samples: held_audio(*final(decoder)),
                        channels: s.channels as nat,
                        rate: s.rate as nat,
                    },
                ),
            )
            &&& held_frames(*final(decoder)) == s.frames
            &&& held_channels(*final(decoder)) == s.channels
            &&& held_audio(*final(decoder)).len() == s.frames * s.channels
            &&& decoder_at(*final(decoder)) == (packet_at(*packet).0, packet_at(*packet).1 + 1)
        },
{
    decoder.inner.decode(&packet.inner).map(
        |decoded|
            SignalShape {
                frames: decoded.frames(),
                channels: decoded.spec().channels.count(),
                rate: decoded.spec().rate,
            },
    )
}

/// `Decoder::last_decoded`, copied through a `SampleBuffer` of `i16`: the
/// audio that the decoder holds, as interleaved 16-bit samples.
/// `SampleBuffer::new` divides by the channel count, and the copy reaches
/// into the buffer once for each channel, so there must be a channel and a
/// frame. Its limit on the number of samples is met by any audio that a
/// decoder holds in memory.
#[verifier::external_body]
pub(crate) fn held_samples(decoder: &PacketDecoder) -> (samples: Vec<i16>)
    requires
        held_channels(*decoder) > 0,
        held_frames(*decoder) > 0,
    ensures
        samples@ == held_audio(*decoder),
{
    let decoded = decoder.inner.last_decoded();
    let mut buffer = symphonia::core::audio::SampleBuffer::<i16>::new(
        decoded.frames() as u64,
        *decoded.spec(),
    );
    buffer.copy_interleaved_ref(decoded);
    buffer.samples().to_vec()
}

} // verus!

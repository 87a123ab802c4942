//! An audio record: the path of a file and its samples in the canonical form.

use vstd::prelude::*;
use crate::error::{DecodeError, DecodeStage};
use crate::loudness::{magnitude_sum, Loudness};
use crate::media::{
    decode_packet, decode_result, decoder_at, decoder_result, default_track, fetch_result,
    held_samples, hint_with_extension, hinted_extension, make_decoder, next_packet,
    of_default_track, packet_track_id, passed_over, path_extension, probe_format, probe_result,
    reader_at, track_id, track_result, Fetch, Fetched, PacketDecoder,
};
use crate::pcm::{
    any_unplaceable, canonical_pcm, chunk_views, ChunkView, DecodedChunk, PcmBuilder, Progress,
};

verus! {

/// A decoded file.
#[derive(Debug)]
pub struct Audio {
    path: String,
    pcm: Vec<i16>,
}

/// What an audio record holds, as mathematical values.
pub struct AudioView {
    /// The path of the file, as it was given.
    pub path: Seq<char>,
    /// The samples: one channel at 44,100 Hz.
    pub pcm: Seq<i16>,
}

impl View for Audio {
    type V = AudioView;

    closed spec fn view(&self) -> AudioView {
        AudioView { path: self.path@, pcm: self.pcm@ }
    }
}

/// What the demuxers and decoders make of the bytes of a file.
pub enum Decoding {
    /// They fail at this stage.
    Failed(DecodeStage),
    /// They give these chunks of audio, in the order of the stream.
    Chunks(Seq<ChunkView>),
}

/// What following the stream of `bytes` gives from its packet `index` on,
/// when `chunks` have been gathered and `credit` more packets may be taken:
/// all chunks of the stream, or `None` inside where it fails. The outer
/// `None` stands for a call that does not return.
///
/// The stream ends where its reader says so. It fails where the reader
/// cannot go on, where a packet of the default track cannot be decoded, and
/// where a packet comes with no credit left: with one packet allowed for each
/// byte of the source, a reader that never ends cannot keep the decode from
/// ending. Packets of other tracks are passed over, and audio without a
/// sample adds no chunk.
pub open spec fn packets_from(
    bytes: Seq<u8>,
    index: nat,
    credit: nat,
    chunks: Seq<ChunkView>,
) -> Option<Option<Seq<ChunkView>>>
    decreases credit,
{
    match fetch_result(bytes, index) {
        None => None,
        Some(Fetch::End) => Some(Some(chunks)),
        Some(Fetch::Fault) => Some(None),
        Some(Fetch::Packet) => if credit == 0 {
            Some(None)
        } else if !of_default_track(bytes, index) {
            packets_from(bytes, index + 1, (credit - 1) as nat, chunks)
        } else {
            match decode_result(bytes, index) {
                None => None,
                Some(None) => Some(None),
                Some(Some(chunk)) => packets_from(
                    bytes,
                    index + 1,
                    (credit - 1) as nat,
                    if chunk.samples.len() == 0 {
                        chunks
                    } else {
                        chunks.push(chunk)
                    },
                ),
            }
        },
    }
}

/// What the demuxers and decoders make of `bytes`, stage by stage; `None`
/// where one of their calls does not return.
pub open spec fn decoding_of(bytes: Seq<u8>) -> Option<Decoding> {
    match probe_result(bytes) {
        None => None,
        Some(false) => Some(Decoding::Failed(DecodeStage::Identify)),
        Some(true) => if track_result(bytes) is None {
            Some(Decoding::Failed(DecodeStage::SelectTrack))
        } else {
            match decoder_result(bytes) {
                None => None,
                Some(false) => Some(Decoding::Failed(DecodeStage::CreateDecoder)),
                Some(true) => match packets_from(bytes, 0, bytes.len(), Seq::empty()) {
                    None => None,
                    Some(None) => Some(Decoding::Failed(DecodeStage::DecodePacket)),
                    Some(Some(chunks)) => Some(Decoding::Chunks(chunks)),
                },
            }
        },
    }
}

/// Every call that decoding `bytes` makes into the demuxers and decoders
/// returns.
pub open spec fn decoders_return(bytes: Seq<u8>) -> bool {
    decoding_of(bytes) is Some
}

/// The stage at which decoding a file with these contents fails, or `None`
/// where it succeeds. A file that cannot be read fails at the first stage;
/// one whose chunks cannot all be placed in time, or give no sample at all,
/// fails at the last.
pub open spec fn failing_stage(contents: Option<Seq<u8>>) -> Option<DecodeStage> {
    match contents {
        None => Some(DecodeStage::Open),
        Some(bytes) => match decoding_of(bytes) {
            Some(Decoding::Failed(stage)) => Some(stage),
            Some(Decoding::Chunks(chunks)) => if any_unplaceable(chunks) || canonical_pcm(
                chunks,
            ).len() == 0 {
                Some(DecodeStage::DecodePacket)
            } else {
                None
            },
            None => Some(DecodeStage::DecodePacket),
        },
    }
}

/// The samples of a file with these contents that decodes.
pub open spec fn samples_of(contents: Option<Seq<u8>>) -> Seq<i16> {
    match contents {
        Some(bytes) => match decoding_of(bytes) {
            Some(Decoding::Chunks(chunks)) => canonical_pcm(chunks),
            _ => Seq::empty(),
        },
        None => Seq::empty(),
    }
}

/// `decoded` is what decoding the file at `path` with these contents gives.
pub open spec fn is_outcome(
    path: Seq<char>,
    contents: Option<Seq<u8>>,
    decoded: Result<Audio, DecodeError>,
) -> bool {
    match failing_stage(contents) {
        Some(stage) => {
            &&& decoded matches Err(error)
            &&& error.stage == stage
            &&& error.kind == stage.failure()
            &&& error.path@ == path
        },
        None => {
            &&& decoded matches Ok(audio)
            &&& audio@.path == path
            &&& audio@.pcm == samples_of(contents)
        },
    }
}

/// The bytes of the contents of a file, if it could be read.
pub open spec fn contents_view(contents: Option<Vec<u8>>) -> Option<Seq<u8>> {
    match contents {
        Some(bytes) => Some(bytes@),
        None => None,
    }
}

/// Decoding the same contents twice gives the same: the same failure, or
/// records with the same samples.
pub proof fn lemma_decoding_twice_agrees(
    path: Seq<char>,
    contents: Option<Seq<u8>>,
    first: Result<Audio, DecodeError>,
    second: Result<Audio, DecodeError>,
)
    requires
        is_outcome(path, contents, first),
        is_outcome(path, contents, second),
    ensures
        first is Ok <==> second is Ok,
        first matches Ok(a) ==> second matches Ok(b) && a@ == b@,
        first matches Err(e) ==> second matches Err(f) && e.stage == f.stage && e.kind == f.kind
            && e.path@ == f.path@,
{
}

/// A file that could be read gives a record with samples or a failure of a
/// stage after the first: its failure is never that of an unreadable source,
/// and its success is never empty.
pub proof fn lemma_readable_file_fails_or_has_samples(
    path: Seq<char>,
    bytes: Seq<u8>,
    decoded: Result<Audio, DecodeError>,
)
    requires
        is_outcome(path, Some(bytes), decoded),
        decoders_return(bytes),
    ensures
        decoded matches Ok(audio) ==> audio@.pcm.len() > 0,
        decoded matches Err(error) ==> {
            &&& error.stage != DecodeStage::Open
            &&& error.kind == error.stage.failure()
            &&& !(error.kind is SourceUnreadable)
            &&& !(error.kind is ExternalToolFailure)
        },
{
}

/// A hint that holds the extension, where there is one.
fn hint_from(extension: Option<String>) -> (hint: symphonia::core::probe::Hint)
    ensures
        hinted_extension(hint) == match extension {
            Some(text) => Some(text@),
            None => None::<Seq<char>>,
        },
{
    let mut hint = symphonia::core::probe::Hint::new();
    match extension {
        Some(text) => {
            hint_with_extension(&mut hint, text.as_str());
        },
        None => {},
    }
    hint
}

impl Audio {
    /// The path of the file, as it was given.
    pub fn path(&self) -> (path: &str)
        ensures
            path@ == self@.path,
    {
        self.path.as_str()
    }

    /// The samples of the file in the canonical form.
    pub fn pcm(&self) -> (pcm: &[i16])
        ensures
            pcm@ == self@.pcm,
    {
        self.pcm.as_slice()
    }

    /// The loudness score of the record: the mean absolute value of its
    /// samples. A record without samples has the score zero.
    pub fn mean_absolute(&self) -> (score: Loudness)
        ensures
            score.total == magnitude_sum(self@.pcm),
            score.count == self@.pcm.len(),
            score == Loudness::of_samples(self@.pcm),
    {
        Loudness::of(self.pcm.as_slice())
    }

    /// The record of the file at `path` whose decoder gave `chunks`, in this
    /// order. Fails at the decoding stage where a chunk has frames but no
    /// sampling rate.
    pub fn from_chunks(path: String, chunks: &Vec<DecodedChunk>) -> (decoded: Result<
        Audio,
        DecodeError,
    >)
        ensures
            decoded is Ok <==> !any_unplaceable(chunk_views(chunks@)),
            decoded matches Ok(audio) ==> {
                &&& audio@.path == path@
                &&& audio@.pcm == canonical_pcm(chunk_views(chunks@))
            },
            decoded matches Err(error) ==> {
                &&& error.stage == DecodeStage::DecodePacket
                &&& error.kind == DecodeStage::DecodePacket.failure()
                &&& error.path == path
            },
    {
        let mut builder = PcmBuilder::new();
        let mut i: usize = 0;
        while i < chunks.len()
            invariant
                i <= chunks@.len(),
                builder@ == Progress::start().absorb_all(chunk_views(chunks@).take(i as int)),
                forall|k: int| 0 <= k < i ==> !(#[trigger] chunk_views(chunks@)[k]).unplaceable(),
            decreases chunks@.len() - i,
        {
            let taken = builder.push(&chunks[i]);
            if !taken {
                assert(chunk_views(chunks@)[i as int].unplaceable());
                return Err(DecodeError::at(DecodeStage::DecodePacket, path));
            }
            proof {
                let next = chunk_views(chunks@).take(i + 1);
                assert(next.drop_last() =~= chunk_views(chunks@).take(i as int));
                assert(next.last() == chunks@[i as int]@);
            }
            i = i + 1;
        }
        proof {
            assert(chunk_views(chunks@).take(i as int) =~= chunk_views(chunks@));
        }
        Ok(Audio { path, pcm: builder.finish() })
    }

    /// Decodes the file at `path`, whose bytes are `contents`; `None` stands
    /// for a file that could not be read.
    ///
    /// The container format is found from the bytes, with the extension of
    /// the path as a hint. The packets of the default track are decoded in the
    /// order of the stream, and what they give is mixed down to one channel
    /// and brought to 44,100 Hz. The first failure ends the decode;
    /// its error names the stage and the file. A file that gives no sample
    /// at all fails at the decoding stage: a record made from a file is never
    /// empty.
    ///
    /// The demuxers and decoders may fail to return on damaged content. The
    /// caller sees to it that they return on these bytes.
    pub fn from_file(path: String, contents: Option<Vec<u8>>) -> (decoded: Result<
        Audio,
        DecodeError,
    >)
        requires
            contents matches Some(bytes) ==> decoders_return(bytes@),
        ensures
            is_outcome(path@, contents_view(contents), decoded),
            contents is None <==> (decoded matches Err(error) && error.kind is SourceUnreadable),
            decoded matches Ok(audio) ==> audio@.pcm.len() > 0,
            decoded matches Err(error) ==> error.kind == error.stage.failure(),
    {
        let bytes = match contents {
            Some(bytes) => bytes,
            None => {
                return Err(DecodeError::at(DecodeStage::Open, path));
            },
        };
        let source_len = bytes.len();
        let hint = hint_from(path_extension(path.as_str()));
        let mut probed = match probe_format(&hint, bytes) {
            Ok(probed) => probed,
            Err(_) => {
                return Err(DecodeError::at(DecodeStage::Identify, path));
            },
        };
        let track = match default_track(&probed) {
            Some(track) => track,
            None => {
                return Err(DecodeError::at(DecodeStage::SelectTrack, path));
            },
        };
        let mut decoder = match make_decoder(&track) {
            Ok(decoder) => decoder,
            Err(_) => {
                return Err(DecodeError::at(DecodeStage::CreateDecoder, path));
            },
        };
        let chunks = match decode_track(&mut probed, &mut decoder, track_id(&track), source_len) {
            Some(chunks) => chunks,
            None => {
                return Err(DecodeError::at(DecodeStage::DecodePacket, path));
            },
        };
        match Audio::from_chunks(path, &chunks) {
            Ok(audio) => {
                if audio.pcm.len() > 0 {
                    Ok(audio)
                } else {
                    Err(DecodeError::at(DecodeStage::DecodePacket, audio.path))
                }
            },
            Err(error) => Err(error),
        }
    }

    /// What decoding gives for a file at `path` that could not be read: the
    /// failure of the first stage.
    pub fn from_unreadable(path: String) -> (decoded: Result<Audio, DecodeError>)
        ensures
            is_outcome(path@, None, decoded),
            decoded matches Err(error) && error.stage == DecodeStage::Open
                && error.kind is SourceUnreadable && error.path@ == path@,
    {
        Audio::from_file(path, None)
    }
}

/// Follows the stream of a reader that has handed out no packet, with a
/// decoder that has decoded none: takes packet after packet, decodes those of
/// the track `track`, and gathers the chunks that they give. At most
/// `source_len` packets are taken. Returns `None` where the stream fails.
fn decode_track(
    probed: &mut symphonia::core::probe::ProbeResult,
    decoder: &mut PacketDecoder,
    track: u32,
    source_len: usize,
) -> (gathered: Option<Vec<DecodedChunk>>)
    requires
        reader_at(*old(probed)).1 == 0,
        decoder_at(*old(decoder)) == reader_at(*old(probed)),
        track_result(reader_at(*old(probed)).0) == Some(track),
        packets_from(reader_at(*old(probed)).0, 0, source_len as nat, Seq::empty()) is Some,
    ensures
        match packets_from(reader_at(*old(probed)).0, 0, source_len as nat, Seq::empty()) {
            Some(Some(chunks)) => gathered matches Some(found) && chunk_views(found@) == chunks,
            _ => gathered is None,
        },
{
    let ghost bytes = reader_at(*probed).0;
    let ghost whole = packets_from(bytes, 0, source_len as nat, Seq::empty());
    let ghost mut index: nat = 0;
    let mut chunks: Vec<DecodedChunk> = Vec::new();
    let mut credit: usize = source_len;
    assert(chunk_views(chunks@) =~= Seq::<ChunkView>::empty());
    loop
        invariant
            reader_at(*probed) == (bytes, index),
            decoder_at(*decoder).0 == bytes,
            passed_over(bytes, decoder_at(*decoder).1, index),
            track_result(bytes) == Some(track),
            whole == packets_from(bytes, index, credit as nat, chunk_views(chunks@)),
            whole is Some,
            whole == packets_from(reader_at(*old(probed)).0, 0, source_len as nat, Seq::empty()),
        decreases credit,
    {
        let packet = match next_packet(probed) {
            Fetched::Packet(packet) => packet,
            Fetched::End => {
                return Some(chunks);
            },
            Fetched::Fault => {
                return None;
            },
        };
        if credit == 0 {
            return None;
        }
        if packet_track_id(&packet) == track {
            let shape = match decode_packet(decoder, &packet) {
                Ok(shape) => shape,
                Err(_) => {
                    return None;
                },
            };
            let ghost before = chunk_views(chunks@);
            if shape.channels > 0 && shape.frames > 0 {
                assert(shape.frames * shape.channels > 0) by (nonlinear_arith)
                    requires
                        shape.frames > 0,
                        shape.channels > 0,
                ;
                let samples = held_samples(decoder);
                chunks.push(DecodedChunk { samples, channels: shape.channels, rate: shape.rate });
                assert(chunk_views(chunks@) =~= before.push(chunks@.last()@));
            } else {
                assert(shape.frames * shape.channels == 0) by (nonlinear_arith)
                    requires
                        shape.frames == 0 || shape.channels == 0,
                ;
            }
        } else {
            assert(!of_default_track(bytes, index));
        }
        credit = credit - 1;
        proof {
            index = index + 1;
        }
    }
}

} // verus!

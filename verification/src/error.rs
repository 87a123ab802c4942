//! Why a file could not be decoded: the kind of failure, the stage at which
//! it came, and the file that it is about.

use vstd::prelude::*;
use vstd::string::StringExecFns;
use crate::media::{
    ends_in_parent, file_name_of, is_part_of, is_plain_path, last_piece, path_file_name, stretch,
    without_trailing,
};

verus! {

/// The stages of decoding a file, in the order in which they run.
#[derive(Clone, Copy, Debug, PartialEq, Eq, Structural)]
pub enum DecodeStage {
    /// Reading the source.
    Open,
    /// Finding out the container format.
    Identify,
    /// Choosing the track to decode.
    SelectTrack,
    /// Making a decoder for the codec of the track.
    CreateDecoder,
    /// Decoding the packets of the track and bringing them to the canonical
    /// form.
    DecodePacket,
}

/// The kinds of failure.
#[derive(Debug, PartialEq, Eq)]
pub enum DecodeErrorKind {
    /// The source could not be opened or read.
    SourceUnreadable,
    /// The content is in no known format, or is damaged.
    UnsupportedOrCorruptFormat,
    /// The container holds no track that could be decoded.
    NoDecodableTrack,
    /// No decoder is at hand for the codec of the track.
    DecoderUnavailable,
    /// A tool outside this process failed, with its exit status and what it
    /// said.
    ExternalToolFailure { status: i32, diagnostic: String },
}

/// A failed decode.
#[derive(Debug, PartialEq, Eq)]
pub struct DecodeError {
    /// What went wrong.
    pub kind: DecodeErrorKind,
    /// The stage at which it went wrong.
    pub stage: DecodeStage,
    /// The path of the file, as it was given.
    pub path: String,
}

impl DecodeStage {
    /// The kind of failure that this stage itself ends in.
    pub open spec fn failure(self) -> DecodeErrorKind {
        match self {
            DecodeStage::Open => DecodeErrorKind::SourceUnreadable,
            DecodeStage::Identify => DecodeErrorKind::UnsupportedOrCorruptFormat,
            DecodeStage::SelectTrack => DecodeErrorKind::NoDecodableTrack,
            DecodeStage::CreateDecoder => DecodeErrorKind::DecoderUnavailable,
            DecodeStage::DecodePacket => DecodeErrorKind::UnsupportedOrCorruptFormat,
        }
    }

    /// The words that report a failure at this stage, up to the name of the
    /// file.
    pub open spec fn report(self) -> Seq<char> {
        match self {
            DecodeStage::Open => "failed to open file: "@,
            DecodeStage::Identify => "invalid format for file: "@,
            DecodeStage::SelectTrack => "no default track in file: "@,
            DecodeStage::CreateDecoder => "failed to create decoder for file: "@,
            DecodeStage::DecodePacket => "failed to decode packet in file: "@,
        }
    }

    /// The kind of failure that this stage itself ends in.
    pub fn failure_kind(self) -> (kind: DecodeErrorKind)
        ensures
            kind == self.failure(),
    {
        match self {
            DecodeStage::Open => DecodeErrorKind::SourceUnreadable,
            DecodeStage::Identify => DecodeErrorKind::UnsupportedOrCorruptFormat,
            DecodeStage::SelectTrack => DecodeErrorKind::NoDecodableTrack,
            DecodeStage::CreateDecoder => DecodeErrorKind::DecoderUnavailable,
            DecodeStage::DecodePacket => DecodeErrorKind::UnsupportedOrCorruptFormat,
        }
    }

    /// The words that report a failure at this stage, up to the name of the
    /// file.
    pub fn report_words(self) -> (words: &'static str)
        ensures
            words@ == self.report(),
    {
        match self {
            DecodeStage::Open => "failed to open file: ",
            DecodeStage::Identify => "invalid format for file: ",
            DecodeStage::SelectTrack => "no default track in file: ",
            DecodeStage::CreateDecoder => "failed to create decoder for file: ",
            DecodeStage::DecodePacket => "failed to decode packet in file: ",
        }
    }
}

/// The name to show for a file whose path has the file name `found`: that
/// name, or nothing where the path has none.
pub fn shown_name(found: Option<String>) -> (name: String)
    ensures
        name@ == match found {
            Some(text) => text@,
            None => Seq::<char>::empty(),
        },
{
    match found {
        Some(text) => text,
        None => String::new(),
    }
}

/// The name that is shown for a file name found or not found.
pub open spec fn shown(found: Option<Seq<char>>) -> Seq<char> {
    match found {
        Some(text) => text,
        None => Seq::empty(),
    }
}

/// The name under which a file is shown: the last component of its path, or
/// nothing where the path has none. It is a piece of the path. For a plain
/// path it is the file name that Unix and Windows alike find in it.
pub(crate) fn display_filename(path: &str) -> (name: String)
    ensures
        is_part_of(name@, path@),
        !path@.contains('\\') ==> !name@.contains('/'),
        !path@.contains('\\') && (path@.len() == 0 || ends_in_parent(path@)) ==> name@.len() == 0,
        is_plain_path(path@) ==> name@ == shown(file_name_of(path@)),
{
    let found = path_file_name(path);
    proof {
        if found is None {
            assert(stretch(path@, 0, 0) =~= Seq::<char>::empty());
        }
    }
    shown_name(found)
}

/// What follows a separator, and holds none, is the last piece of the path.
proof fn lemma_last_piece(before: Seq<char>, name: Seq<char>)
    requires
        before.len() == 0 || before.last() == '/',
        !name.contains('/'),
    ensures
        last_piece(before + name) == name,
    decreases name.len(),
{
    if name.len() == 0 {
        assert(before + name =~= before);
    } else {
        let rest = name.drop_last();
        assert(name[name.len() - 1] != '/');
        assert forall|i: int| 0 <= i < rest.len() implies rest[i] != '/' by {
            assert(rest[i] == name[i]);
        }
        assert((before + name).drop_last() =~= before + rest);
        lemma_last_piece(before, rest);
        assert(rest.push(name.last()) =~= name);
    }
}

/// A plain path that ends in a name has that name for its file name: the
/// name is what follows the last separator, where that is not empty and is
/// neither one dot nor two.
pub proof fn lemma_file_name_of_path(before: Seq<char>, name: Seq<char>)
    requires
        before.len() == 0 || before.last() == '/',
        !name.contains('/'),
        name.len() > 0,
        name != seq!['.'],
        name != seq!['.', '.'],
    ensures
        file_name_of(before + name) == Some(name),
{
    let path = before + name;
    assert(path.last() == name.last());
    assert(name[name.len() - 1] != '/');
    if name.len() >= 2 {
        assert(path[path.len() - 2] == name[name.len() - 2]);
        assert(name[name.len() - 2] != '/');
    } else {
        assert(name =~= seq![name[0]]);
        assert(name[0] != '.');
    }
    assert(without_trailing(path) == path);
    lemma_last_piece(before, name);
}

impl DecodeError {
    /// The failure of `stage` for the file at `path`.
    pub fn at(stage: DecodeStage, path: String) -> (error: DecodeError)
        ensures
            error.stage == stage,
            error.kind == stage.failure(),
            error.path == path,
    {
        DecodeError { kind: stage.failure_kind(), stage, path }
    }

    /// The report of the failure, with the file shown as `shown_name`.
    pub fn message_for(&self, shown_name: &str) -> (text: String)
        ensures
            text@ == self.stage.report() + shown_name@,
    {
        let mut text = String::from_str(self.stage.report_words());
        text.append(shown_name);
        text
    }

    /// The report of the failure, with the file shown by the last component
    /// of its path: the words of the stage, and after them a piece of the
    /// path.
    pub fn message(&self) -> (text: String)
        ensures
            text@.len() >= self.stage.report().len(),
            text@.subrange(0, self.stage.report().len() as int) == self.stage.report(),
            exists|name: Seq<char>|
                text@ == self.stage.report() + name && #[trigger] is_part_of(name, self.path@),
            is_plain_path(self.path@) ==> text@ == self.stage.report() + shown(
                file_name_of(self.path@),
            ),
    {
        let name = display_filename(self.path.as_str());
        let text = self.message_for(name.as_str());
        assert(text@.subrange(0, self.stage.report().len() as int) =~= self.stage.report());
        assert(text@ == self.stage.report() + name@ && is_part_of(name@, self.path@));
        assert(name@.len() == 0 ==> self.stage.report() + name@ =~= self.stage.report());
        text
    }
}

} // verus!

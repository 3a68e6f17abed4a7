//! Tensors out of a safetensors archive held in memory.

use safetensors::SafeTensors;
use vstd::prelude::*;

use crate::error::VindexError;
use crate::header::check_data_ends;

verus! {

/// `safetensors::SafeTensors`: a parsed archive over a borrowed buffer.
#[verifier::external_type_specification]
#[verifier::external_body]
pub struct ExSafeTensors<'data>(safetensors::SafeTensors<'data>);

/// The tensors of a parsed archive: by name, the shape and the bytes.
pub uninterp spec fn archive_tensors(archive: SafeTensors<'_>) -> Map<
    Seq<char>,
    (Seq<usize>, Seq<u8>),
>;

/// What parsing an archive's bytes yields: its tensors, or nothing where it is malformed.
pub uninterp spec fn parsed_archive(bytes: Seq<u8>) -> Option<
    Map<Seq<char>, (Seq<usize>, Seq<u8>)>,
>;

/// One tensor of an archive.
pub struct RawTensor<'a> {
    /// Extent of each dimension, outermost first.
    pub shape: Vec<usize>,
    /// Elements in row-major order, as stored.
    pub data: &'a [u8],
}

/// The greatest size of a header that the parser takes.
pub const MAX_HEADER_SIZE: u64 = 100_000_000;

/// What is said of an archive whose frame is wrong, where it is: the size in front is cut off, too
/// large, or larger than what follows it.
pub open spec fn frame_error(bytes: Seq<u8>) -> Option<Seq<char>> {
    if bytes.len() < 8 {
        Some("header too small"@)
    } else if crate::header::header_size(bytes) > MAX_HEADER_SIZE {
        Some("header too large"@)
    } else if crate::header::header_size(bytes) > bytes.len() - 8 {
        Some("invalid header length"@)
    } else {
        None
    }
}

/// What is said of a name that an archive lacks.
pub open spec fn not_found_text(name: Seq<char>) -> Seq<char> {
    "tensor `"@ + name + "` not found"@
}

/// `SafeTensors::deserialize`, with an error as its text: parses a whole archive. It succeeds on
/// exactly the bytes that `parsed_archive` gives tensors for, and then holds those tensors. A wrong
/// frame is refused before the header is read, with a text of its own.
///
/// Which text it gives of a header that is wrong in itself is left open: where offsets of several
/// tensors tie, it walks the tensors in the order of a seeded hash map, and names the first.
///
/// The parser adds the end of the last tensor to the header's size without an overflow check,
/// hence the bound on the ends. It multiplies the extents of a shape, and then by the bits of an
/// element, with a check; it ignores fields that it does not know, and all but the last tensor of
/// a name.
#[verifier::external_body]
fn open_archive<'a>(bytes: &'a [u8]) -> (archive: Result<SafeTensors<'a>, String>)
    requires
        crate::header::data_ends_fit(bytes@),
    ensures
        archive is Ok <==> parsed_archive(bytes@) is Some,
        archive matches Ok(open) ==> archive_tensors(open) == parsed_archive(bytes@)->0,
        archive is Ok ==> frame_error(bytes@) is None,
        archive matches Err(error) ==> frame_error(bytes@) is Some ==> error@ == frame_error(
            bytes@,
        )->0,
{
    SafeTensors::deserialize(bytes).map_err(|error| error.to_string())
}

/// `SafeTensors::tensor`, with an error as its text: finds a tensor by name, and hands out its
/// shape and bytes; an error says that no tensor has that name.
#[verifier::external_body]
fn find_tensor<'a>(archive: &SafeTensors<'a>, name: &str) -> (tensor: Result<RawTensor<'a>, String>)
    ensures
        tensor is Ok <==> archive_tensors(*archive).contains_key(name@),
        tensor matches Ok(found) ==> (found.shape@, found.data@) == archive_tensors(
            *archive,
        )[name@],
        tensor matches Err(error) ==> error@ == not_found_text(name@),
{
    let view = archive.tensor(name).map_err(|error| error.to_string())?;
    Ok(RawTensor { shape: view.shape().to_vec(), data: view.data() })
}

/// What is said of an archive whose data would end beyond it.
pub const ENDS_BEYOND: &'static str = "tensor data end beyond the archive";

/// Why a tensor of an archive cannot be read.
pub enum ReadFailure {
    /// Data would end beyond the archive.
    Ends,
    /// The archive's frame is wrong, of which this is said.
    Frame(Seq<char>),
    /// The header is wrong in itself.
    Header,
    /// The archive has no tensor of this name.
    Missing(Seq<char>),
}

/// Why an archive cannot be parsed, where it cannot.
pub open spec fn archive_failure(bytes: Seq<u8>) -> Option<ReadFailure> {
    if !crate::header::data_ends_fit(bytes) {
        Some(ReadFailure::Ends)
    } else if parsed_archive(bytes) is Some {
        None
    } else {
        match frame_error(bytes) {
            Some(text) => Some(ReadFailure::Frame(text)),
            None => Some(ReadFailure::Header),
        }
    }
}

/// The tensor `name` of the archive `bytes`: its shape and its bytes.
pub open spec fn archived_tensor(bytes: Seq<u8>, name: Seq<char>) -> Option<
    (Seq<usize>, Seq<u8>),
> {
    if archive_failure(bytes) is None && parsed_archive(bytes)->0.contains_key(name) {
        Some(parsed_archive(bytes)->0[name])
    } else {
        None
    }
}

/// Why two tensors cannot be read, each out of its own archive, where they cannot: both archives
/// are parsed before either tensor is looked up.
pub open spec fn pair_failure(
    first: Seq<u8>,
    first_name: Seq<char>,
    second: Seq<u8>,
    second_name: Seq<char>,
) -> Option<ReadFailure> {
    if archive_failure(first) is Some {
        archive_failure(first)
    } else if archive_failure(second) is Some {
        archive_failure(second)
    } else if !parsed_archive(first)->0.contains_key(first_name) {
        Some(ReadFailure::Missing(first_name))
    } else if !parsed_archive(second)->0.contains_key(second_name) {
        Some(ReadFailure::Missing(second_name))
    } else {
        None
    }
}

/// Whether an error reports a failure. What is said of a header that is wrong in itself is the
/// parser's choice.
pub open spec fn reports(error: VindexError, failure: ReadFailure) -> bool {
    let VindexError::Parse(text) = error;
    match failure {
        ReadFailure::Ends => text@ == ENDS_BEYOND@,
        ReadFailure::Frame(said) => text@ == said,
        ReadFailure::Header => true,
        ReadFailure::Missing(name) => text@ == not_found_text(name),
    }
}

/// Whether `pair` is what reading two tensors gives, each out of its own archive.
pub open spec fn is_pair(
    pair: Result<(RawTensor<'_>, RawTensor<'_>), VindexError>,
    first: Seq<u8>,
    first_name: Seq<char>,
    second: Seq<u8>,
    second_name: Seq<char>,
) -> bool {
    match pair {
        Ok((one, two)) => {
            &&& pair_failure(first, first_name, second, second_name) is None
            &&& archived_tensor(first, first_name) == Some((one.shape@, one.data@))
            &&& archived_tensor(second, second_name) == Some((two.shape@, two.data@))
        },
        Err(error) => {
            &&& pair_failure(first, first_name, second, second_name) is Some
            &&& reports(error, pair_failure(first, first_name, second, second_name)->0)
        },
    }
}

/// Parses an archive whose header has not been checked yet.
fn open_checked<'a>(bytes: &'a [u8]) -> (archive: Result<SafeTensors<'a>, VindexError>)
    ensures
        match archive {
            Ok(open) => archive_failure(bytes@) is None && parsed_archive(bytes@) == Some(
                archive_tensors(open),
            ),
            Err(error) => archive_failure(bytes@) is Some && reports(
                error,
                archive_failure(bytes@)->0,
            ),
        },
{
    if !check_data_ends(bytes) {
        return Err(VindexError::Parse(ENDS_BEYOND.to_owned()));
    }
    match open_archive(bytes) {
        Ok(open) => Ok(open),
        Err(text) => Err(VindexError::Parse(text)),
    }
}

/// Finds a tensor of a parsed archive.
fn find_named<'a>(archive: &SafeTensors<'a>, name: &str) -> (tensor: Result<
    RawTensor<'a>,
    VindexError,
>)
    ensures
        match tensor {
            Ok(found) => archive_tensors(*archive).contains_key(name@) && (
                found.shape@,
                found.data@,
            ) == archive_tensors(*archive)[name@],
            Err(error) => !archive_tensors(*archive).contains_key(name@) && reports(
                error,
                ReadFailure::Missing(name@),
            ),
        },
{
    match find_tensor(archive, name) {
        Ok(found) => Ok(found),
        Err(text) => Err(VindexError::Parse(text)),
    }
}

/// Reads two tensors, each out of its own archive. Both archives are parsed before either tensor
/// is looked up.
///
/// Where a header is wrong in itself, the text of the error is the parser's and not specified.
pub fn read_tensor_pair<'a>(
    first: &'a [u8],
    first_name: &str,
    second: &'a [u8],
    second_name: &str,
) -> (pair: Result<(RawTensor<'a>, RawTensor<'a>), VindexError>)
    ensures
        is_pair(pair, first@, first_name@, second@, second_name@),
{
    let first_archive = open_checked(first)?;
    let second_archive = open_checked(second)?;
    let one = find_named(&first_archive, first_name)?;
    let two = find_named(&second_archive, second_name)?;
    Ok((one, two))
}

/// A pair is read exactly where both archives parse and each has its tensor; then it is those two
/// tensors, each with its own shape and bytes. An archive whose data would end beyond it, or of
/// which the parser makes nothing, gives an error, and so does a name that it lacks.
pub proof fn law_pairs_are_what_the_archives_hold(
    pair: Result<(RawTensor<'_>, RawTensor<'_>), VindexError>,
    first: Seq<u8>,
    first_name: Seq<char>,
    second: Seq<u8>,
    second_name: Seq<char>,
)
    requires
        is_pair(pair, first, first_name, second, second_name),
    ensures
        pair is Ok <==> crate::header::data_ends_fit(first) && crate::header::data_ends_fit(second)
            && parsed_archive(first) is Some && parsed_archive(second) is Some && parsed_archive(
            first,
        )->0.contains_key(first_name) && parsed_archive(second)->0.contains_key(second_name),
        pair matches Ok((one, two)) ==> {
            &&& (one.shape@, one.data@) == parsed_archive(first)->0[first_name]
            &&& (two.shape@, two.data@) == parsed_archive(second)->0[second_name]
        },
{
}

/// An error names the tensor that is missing, the first one's where both are, once both archives
/// are parsed.
pub proof fn law_missing_tensors_are_named(
    pair: Result<(RawTensor<'_>, RawTensor<'_>), VindexError>,
    first: Seq<u8>,
    first_name: Seq<char>,
    second: Seq<u8>,
    second_name: Seq<char>,
)
    requires
        is_pair(pair, first, first_name, second, second_name),
        crate::header::data_ends_fit(first),
        crate::header::data_ends_fit(second),
        parsed_archive(first) is Some,
        parsed_archive(second) is Some,
    ensures
        !parsed_archive(first)->0.contains_key(first_name) ==> (pair matches Err(
            VindexError::Parse(text),
        ) && text@ == "tensor `"@ + first_name + "` not found"@),
        parsed_archive(first)->0.contains_key(first_name) && !parsed_archive(
            second,
        )->0.contains_key(second_name) ==> (pair matches Err(VindexError::Parse(text)) && text@ == "tensor `"@ + second_name
            + "` not found"@),
{
}

/// Of an archive that is not parsed it is said, the first one's before the second's: that its data
/// would end beyond it; else that it is cut off before its header's size, that this size is over a
/// hundred million, or that it is more than what follows.
pub proof fn law_wrong_archives_are_told_apart(
    pair: Result<(RawTensor<'_>, RawTensor<'_>), VindexError>,
    first: Seq<u8>,
    first_name: Seq<char>,
    second: Seq<u8>,
    second_name: Seq<char>,
    wrong: Seq<u8>,
)
    requires
        is_pair(pair, first, first_name, second, second_name),
        wrong == first || (wrong == second && crate::header::data_ends_fit(first)
            && parsed_archive(first) is Some),
        !crate::header::data_ends_fit(wrong) || parsed_archive(wrong) is None,
    ensures
        pair is Err,
        pair matches Err(VindexError::Parse(text)) ==> {
            let size = crate::header::header_size(wrong);
            if !crate::header::data_ends_fit(wrong) {
                text@ == "tensor data end beyond the archive"@
            } else if wrong.len() < 8 {
                text@ == "header too small"@
            } else if size > 100_000_000 {
                text@ == "header too large"@
            } else {
                size > wrong.len() - 8 ==> text@ == "invalid header length"@
            }
        },
{
}

} // verus!

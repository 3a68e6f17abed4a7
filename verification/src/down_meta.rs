//! Down-projection metadata: which vocabulary tokens each FFN feature writes most strongly.
//!
//! Every layer has one or more down matrices. A feature's column, projected onto the vocabulary,
//! is a column of scores; the highest of them name the feature. This module decides where the
//! matrices come from, how the features are batched, which tokens are kept, and how the layers are
//! put together. The projection itself is done by the caller.

use vstd::hash_map::StringHashMap;
use vstd::prelude::*;

use crate::archive::{read_tensor_pair, RawTensor};
use crate::error::VindexError;
use crate::text::trim;
use crate::top_k::{select_top, Scored};

verus! {

// ── Stage order ─────────────────────────────────────────────────────────────

/// One step of the down-meta stage.
#[derive(PartialEq, Eq, Structural, Clone, Copy, Debug)]
pub enum DownMetaStep {
    /// Tell the callbacks that the stage starts.
    AnnounceStage,
    /// Say that the file of an earlier run is reused.
    NoticeSkip,
    /// Build the whole-word vocabulary from the embeddings, which have to be loaded by now.
    BuildVocabulary,
    /// Project every layer and gather the results.
    ProjectLayers,
    /// Write the binary file.
    WriteBinary,
    /// Tell the callbacks that the stage is done.
    StageDone,
    /// Mark the phase complete in the checkpoint.
    MarkCheckpoint,
}

/// The steps of the stage, in order. A stage that an earlier run completed is announced and
/// skipped, though the vocabulary is built; otherwise the checkpoint is marked only behind the
/// write.
pub open spec fn stage_steps(resumed: bool) -> Seq<DownMetaStep> {
    if resumed {
        seq![
            DownMetaStep::AnnounceStage,
            DownMetaStep::NoticeSkip,
            DownMetaStep::BuildVocabulary,
        ]
    } else {
        seq![
            DownMetaStep::AnnounceStage,
            DownMetaStep::BuildVocabulary,
            DownMetaStep::ProjectLayers,
            DownMetaStep::WriteBinary,
            DownMetaStep::StageDone,
            DownMetaStep::MarkCheckpoint,
        ]
    }
}

/// Plans the stage; each step runs only where the one before it succeeded.
pub fn write_down_meta(resumed: bool) -> (steps: Vec<DownMetaStep>)
    ensures
        steps@ == stage_steps(resumed),
{
    let mut steps: Vec<DownMetaStep> = Vec::new();
    steps.push(DownMetaStep::AnnounceStage);
    if resumed {
        steps.push(DownMetaStep::NoticeSkip);
    }
    steps.push(DownMetaStep::BuildVocabulary);
    if !resumed {
        steps.push(DownMetaStep::ProjectLayers);
        steps.push(DownMetaStep::WriteBinary);
        steps.push(DownMetaStep::StageDone);
        steps.push(DownMetaStep::MarkCheckpoint);
    }
    assert(steps@ =~= stage_steps(resumed));
    steps
}

/// A resumed stage leaves file and checkpoint as they are.
pub proof fn law_resumed_stage_writes_nothing()
    ensures
        !stage_steps(true).contains(DownMetaStep::ProjectLayers),
        !stage_steps(true).contains(DownMetaStep::WriteBinary),
        !stage_steps(true).contains(DownMetaStep::StageDone),
        !stage_steps(true).contains(DownMetaStep::MarkCheckpoint),
{
}

/// The checkpoint is marked only when the file was written before it.
pub proof fn law_mark_follows_write(resumed: bool, mark: int)
    requires
        0 <= mark < stage_steps(resumed).len(),
        stage_steps(resumed)[mark] == DownMetaStep::MarkCheckpoint,
    ensures
        exists|write: int|
            0 <= write < mark && #[trigger] stage_steps(resumed)[write]
                == DownMetaStep::WriteBinary,
{
    assert(stage_steps(resumed)[3] == DownMetaStep::WriteBinary);
}

// ── Where the matrices come from ────────────────────────────────────────────

/// How a model stores the weights of its experts.
#[derive(PartialEq, Eq, Structural, Clone, Copy, Debug)]
pub enum ExpertFormat {
    /// All experts of a layer in one MXFP4 tensor of blocks and one of scales.
    PackedMxfp4,
    /// All experts of a layer in one BF16 tensor.
    PackedBF16,
    /// A tensor per expert, or no experts.
    PerExpert,
}

/// Which tensors hold a layer's down matrices.
#[derive(PartialEq, Eq, Structural, Clone, Copy, Debug)]
pub enum DownSource {
    /// The packed block and scale tensors.
    Packed,
    /// The layer's one dense down tensor.
    Dense,
    /// The down tensor of each of this many experts.
    Experts(usize),
}

/// The source of the down matrices of a model's layers. Packed BF16 experts are left aside for
/// the dense down tensor.
pub open spec fn source_of(format: ExpertFormat, is_moe: bool, n_experts: usize) -> DownSource {
    if format == ExpertFormat::PackedMxfp4 {
        DownSource::Packed
    } else if format == ExpertFormat::PerExpert && is_moe && n_experts > 0 {
        DownSource::Experts(n_experts)
    } else {
        DownSource::Dense
    }
}

/// Decides where a layer's down matrices are read from.
pub fn down_source(format: ExpertFormat, is_moe: bool, n_experts: usize) -> (source: DownSource)
    ensures
        source == source_of(format, is_moe, n_experts),
{
    if format == ExpertFormat::PackedMxfp4 {
        DownSource::Packed
    } else if format == ExpertFormat::PackedBF16 && is_moe {
        DownSource::Dense
    } else if is_moe && n_experts > 0 {
        DownSource::Experts(n_experts)
    } else {
        DownSource::Dense
    }
}

// ── Packed experts ──────────────────────────────────────────────────────────

/// Values per MXFP4 group.
pub const MXFP4_GROUP: usize = 32;

/// Where a tensor is stored: an archive in memory and the tensor's name in it.
pub struct TensorPlace<'a> {
    /// The archive.
    pub shard: &'a [u8],
    /// The tensor's name.
    pub name: &'a str,
}

/// Where a checkpoint lists a tensor.
pub struct Listing {
    /// The archive, by number.
    pub shard: usize,
    /// The tensor's name in it.
    pub name: String,
}

/// The tensors of a checkpoint, by key.
pub struct TensorIndex {
    listings: StringHashMap<Listing>,
}

impl View for TensorIndex {
    type V = Map<Seq<char>, (usize, Seq<char>)>;

    closed spec fn view(&self) -> Map<Seq<char>, (usize, Seq<char>)> {
        self.listings@.map_values(|listing: Listing| (listing.shard, listing.name@))
    }
}

impl TensorIndex {
    /// An index without tensors.
    pub fn new() -> (index: Self)
        ensures
            index@ == Map::<Seq<char>, (usize, Seq<char>)>::empty(),
    {
        let index = TensorIndex { listings: StringHashMap::new() };
        assert(index@ =~= Map::<Seq<char>, (usize, Seq<char>)>::empty());
        index
    }

    /// Lists a tensor, in place of any other of that key.
    pub fn insert(&mut self, key: String, listing: Listing)
        ensures
            final(self)@ == old(self)@.insert(key@, (listing.shard, listing.name@)),
    {
        self.listings.insert(key, listing);
        assert(self@ =~= old(self)@.insert(key@, (listing.shard, listing.name@)));
    }

    /// Where the tensor of a key is listed.
    pub fn get(&self, key: &str) -> (listing: Option<&Listing>)
        ensures
            match listing {
                Some(found) => self@.contains_key(key@) && self@[key@] == (
                    found.shard,
                    found.name@,
                ),
                None => !self@.contains_key(key@),
            },
    {
        self.listings.get(key)
    }
}

/// The key that is looked up: an architecture without one looks up the empty key.
pub open spec fn key_of(key: Option<Seq<char>>) -> Seq<char> {
    match key {
        Some(text) => text,
        None => Seq::empty(),
    }
}

/// Finds the tensor of a key that the architecture may lack, in a checkpoint of `shards`.
pub fn locate_tensor<'a>(
    key: &Option<String>,
    index: &'a TensorIndex,
    shards: &Vec<&'a [u8]>,
) -> (place: Option<TensorPlace<'a>>)
    requires
        index@.contains_key(key_of(crate::text::text_of(*key))) ==> index@[key_of(
            crate::text::text_of(*key),
        )].0 < shards@.len(),
    ensures
        match place {
            Some(found) => {
                let wanted = key_of(crate::text::text_of(*key));
                &&& index@.contains_key(wanted)
                &&& found.shard == shards@[index@[wanted].0 as int]
                &&& found.name@ == index@[wanted].1
            },
            None => !index@.contains_key(key_of(crate::text::text_of(*key))),
        },
{
    let listing: Option<&'a Listing> = match key {
        Some(text) => index.get(text.as_str()),
        None => {
            let blank: String = String::new();
            index.get(blank.as_str())
        },
    };
    match listing {
        Some(found) => Some(
            TensorPlace { shard: shards[found.shard], name: found.name.as_str() },
        ),
        None => None,
    }
}

/// A layer's packed down matrices, ready to be dequantised.
pub struct PackedDown<'a> {
    /// Number of experts.
    pub n_experts: usize,
    /// Rows of each expert's matrix.
    pub out_features: usize,
    /// Groups per row.
    pub groups: usize,
    /// Columns of each expert's matrix.
    pub in_features: usize,
    /// Packed values of all experts.
    pub blocks: &'a [u8],
    /// Scales of all experts.
    pub scales: &'a [u8],
}

/// A shape that gives experts, rows and groups, with a row's width in range.
pub open spec fn packed_shape(shape: Seq<usize>) -> bool {
    shape.len() >= 3 && shape[2] * MXFP4_GROUP <= usize::MAX
}

/// `packed` is what a block tensor and a scale tensor describe.
pub open spec fn describes(
    packed: PackedDown<'_>,
    blocks: (Seq<usize>, Seq<u8>),
    scales: (Seq<usize>, Seq<u8>),
) -> bool {
    &&& packed.n_experts == blocks.0[0]
    &&& packed.out_features == blocks.0[1]
    &&& packed.groups == blocks.0[2]
    &&& packed.in_features == blocks.0[2] * MXFP4_GROUP
    &&& packed.blocks@ == blocks.1
    &&& packed.scales@ == scales.1
}

/// Takes the matrix sizes from the shape of the block tensor.
pub fn packed_down<'a>(blocks: &RawTensor<'a>, scales: &RawTensor<'a>) -> (packed: PackedDown<'a>)
    requires
        packed_shape(blocks.shape@),
    ensures
        describes(packed, (blocks.shape@, blocks.data@), (scales.shape@, scales.data@)),
{
    let groups: usize = blocks.shape[2];
    PackedDown {
        n_experts: blocks.shape[0],
        out_features: blocks.shape[1],
        groups,
        in_features: groups * MXFP4_GROUP,
        blocks: blocks.data,
        scales: scales.data,
    }
}

/// What became of reading a layer's packed tensors.
pub enum PackedRead<'a> {
    /// The checkpoint lacks one of the tensors: the layer has no metadata.
    Absent,
    /// The block tensor's shape is not that of packed experts.
    Misshapen,
    /// The tensors are there.
    Loaded(PackedDown<'a>),
}

/// Whether `read` is what reading a layer's packed tensors gives.
pub open spec fn is_packed_read(
    read: Result<PackedRead<'_>, VindexError>,
    blocks: Option<TensorPlace<'_>>,
    scales: Option<TensorPlace<'_>>,
) -> bool {
    match (blocks, scales) {
        (Some(b), Some(s)) => match crate::archive::pair_failure(
            b.shard@,
            b.name@,
            s.shard@,
            s.name@,
        ) {
            None => {
                let block = crate::archive::archived_tensor(b.shard@, b.name@)->0;
                let scale = crate::archive::archived_tensor(s.shard@, s.name@)->0;
                match read {
                    Ok(PackedRead::Loaded(packed)) => packed_shape(block.0) && describes(
                        packed,
                        block,
                        scale,
                    ),
                    Ok(PackedRead::Misshapen) => !packed_shape(block.0),
                    _ => false,
                }
            },
            Some(failure) => read matches Err(error) && crate::archive::reports(error, failure),
        },
        _ => read == Ok::<PackedRead<'_>, VindexError>(PackedRead::Absent),
    }
}

/// Reads a layer's packed down matrices. A tensor that the checkpoint does not list makes the
/// layer empty; one that is listed and cannot be read is an error.
pub fn read_packed_down<'a>(
    blocks: Option<TensorPlace<'a>>,
    scales: Option<TensorPlace<'a>>,
) -> (read: Result<PackedRead<'a>, VindexError>)
    ensures
        is_packed_read(read, blocks, scales),
{
    match (blocks, scales) {
        (Some(b), Some(s)) => {
            let (block, scale) = read_tensor_pair(b.shard, b.name, s.shard, s.name)?;
            if block.shape.len() >= 3 && block.shape[2] <= usize::MAX / MXFP4_GROUP {
                Ok(PackedRead::Loaded(packed_down(&block, &scale)))
            } else {
                Ok(PackedRead::Misshapen)
            }
        },
        _ => Ok(PackedRead::Absent),
    }
}

// ── Features and batches ────────────────────────────────────────────────────

/// How many features of a matrix are described: all of them, or the first `summary_k` where a
/// summary is asked for and the matrix has more.
pub open spec fn described_features(full: usize, summary_k: usize) -> usize {
    if summary_k > 0 && full > summary_k {
        summary_k
    } else {
        full
    }
}

/// Counts the features of a matrix that get metadata.
pub fn feature_count(full: usize, summary_k: usize) -> (count: usize)
    ensures
        count == described_features(full, summary_k),
{
    if summary_k > 0 && full > summary_k {
        summary_k
    } else {
        full
    }
}

/// A run of features that are projected together.
#[derive(PartialEq, Eq, Structural, Clone, Copy, Debug)]
pub struct Batch {
    /// First feature.
    pub start: usize,
    /// One past the last feature.
    pub end: usize,
}

/// `batches` cut `0..features` into runs of `size`, of which only the last may be shorter.
pub open spec fn cuts(batches: Seq<Batch>, features: usize, size: usize) -> bool {
    &&& batches.len() == 0 <==> features == 0
    &&& batches.len() > 0 ==> batches[0].start == 0 && batches.last().end == features
    &&& forall|i: int|
        0 <= i < batches.len() ==> (#[trigger] batches[i]).start < batches[i].end
            && batches[i].end - batches[i].start <= size
    &&& forall|i: int|
        0 <= i < batches.len() - 1 ==> (#[trigger] batches[i]).end == batches[i + 1].start
            && batches[i].end - batches[i].start == size
}

/// Cuts a matrix's features into batches.
pub fn feature_batches(features: usize, size: usize) -> (batches: Vec<Batch>)
    requires
        size > 0,
    ensures
        cuts(batches@, features, size),
{
    let mut batches: Vec<Batch> = Vec::new();
    let mut start: usize = 0;
    while start < features
        invariant
            size > 0,
            start <= features,
            cuts(batches@, start, size),
            start < features ==> forall|i: int|
                0 <= i < batches@.len() ==> (#[trigger] batches@[i]).end - batches@[i].start
                    == size,
        decreases features - start,
    {
        let end: usize = if size < features - start {
            start + size
        } else {
            features
        };
        batches.push(Batch { start, end });
        start = end;
    }
    batches
}

/// The batches up to number `n` cover the features up to the end of the one before.
proof fn lemma_covered(batches: Seq<Batch>, features: usize, size: usize, n: int, feature: usize)
    requires
        cuts(batches, features, size),
        0 < n <= batches.len(),
        feature < batches[n - 1].end,
    ensures
        exists|i: int|
            0 <= i < n && (#[trigger] batches[i]).start <= feature && feature < batches[i].end,
    decreases n,
{
    if feature < batches[n - 1].start {
        assert(n > 1);
        assert(batches[n - 2].end == batches[n - 1].start);
        lemma_covered(batches, features, size, n - 1, feature);
    }
}

/// Batches stand in order.
proof fn lemma_ordered(batches: Seq<Batch>, features: usize, size: usize, i: int, j: int)
    requires
        cuts(batches, features, size),
        0 <= i < j < batches.len(),
    ensures
        batches[i].end <= batches[j].start,
    decreases j - i,
{
    if i + 1 < j {
        lemma_ordered(batches, features, size, i + 1, j);
        assert(batches[i].end == batches[i + 1].start);
        assert(batches[i + 1].start < batches[i + 1].end);
    } else {
        assert(batches[i].end == batches[i + 1].start);
    }
}

/// Every feature is in a batch.
pub proof fn law_every_feature_is_batched(
    batches: Seq<Batch>,
    features: usize,
    size: usize,
    feature: usize,
)
    requires
        cuts(batches, features, size),
        feature < features,
    ensures
        exists|i: int|
            0 <= i < batches.len() && (#[trigger] batches[i]).start <= feature && feature
                < batches[i].end,
{
    lemma_covered(batches, features, size, batches.len() as int, feature);
}

/// No feature is in two batches.
pub proof fn law_no_feature_is_batched_twice(
    batches: Seq<Batch>,
    features: usize,
    size: usize,
    feature: usize,
    i: int,
    j: int,
)
    requires
        cuts(batches, features, size),
        0 <= i < batches.len(),
        0 <= j < batches.len(),
        batches[i].start <= feature < batches[i].end,
        batches[j].start <= feature < batches[j].end,
    ensures
        i == j,
{
    if i < j {
        lemma_ordered(batches, features, size, i, j);
    } else if j < i {
        lemma_ordered(batches, features, size, j, i);
    }
}

/// A batch of one of a layer's matrices.
#[derive(PartialEq, Eq, Structural, Clone, Copy, Debug)]
pub struct MatrixBatch {
    /// Which matrix.
    pub matrix: usize,
    /// Which of its features.
    pub batch: Batch,
}

/// How many features the first `m` matrices have.
pub open spec fn offset(counts: Seq<usize>, m: int) -> int
    decreases m,
{
    if m <= 0 {
        0
    } else {
        offset(counts, m - 1) + counts[m - 1]
    }
}

/// How many features a list of batches holds.
pub open spec fn features_in(batches: Seq<MatrixBatch>) -> int
    decreases batches.len(),
{
    if batches.len() == 0 {
        0
    } else {
        features_in(batches.drop_last()) + batches.last().batch.end - batches.last().batch.start
    }
}

/// Behind the batches `before`, `here` starts at the next feature, ends within its matrix, and is
/// shorter than `size` only at the matrix's end.
pub open spec fn placed(
    here: MatrixBatch,
    before: Seq<MatrixBatch>,
    counts: Seq<usize>,
    size: usize,
) -> bool {
    &&& here.matrix < counts.len()
    &&& here.batch.start < here.batch.end <= counts[here.matrix as int]
    &&& here.batch.end - here.batch.start <= size
    &&& here.batch.end < counts[here.matrix as int] ==> here.batch.end - here.batch.start == size
    &&& features_in(before) == offset(counts, here.matrix as int) + here.batch.start
}

/// Every batch stands where the ones before it end.
pub open spec fn all_placed(batches: Seq<MatrixBatch>, counts: Seq<usize>, size: usize) -> bool {
    forall|i: int|
        0 <= i < batches.len() ==> placed(#[trigger] batches[i], batches.take(i), counts, size)
}

/// `batches` walk through all features of all matrices in order: each starts at the feature behind
/// those of the batches before it, and only the last of a matrix may be shorter than `size`.
pub open spec fn walks(batches: Seq<MatrixBatch>, counts: Seq<usize>, size: usize) -> bool {
    &&& features_in(batches) == offset(counts, counts.len() as int)
    &&& all_placed(batches, counts, size)
}

/// Plans the batches of a layer whose matrices have `counts` features.
#[verifier::rlimit(40)]
pub fn layer_batches(counts: &Vec<usize>, size: usize) -> (batches: Vec<MatrixBatch>)
    requires
        size > 0,
    ensures
        walks(batches@, counts@, size),
{
    let mut batches: Vec<MatrixBatch> = Vec::new();
    let mut matrix: usize = 0;
    while matrix < counts.len()
        invariant
            size > 0,
            matrix <= counts@.len(),
            features_in(batches@) == offset(counts@, matrix as int),
            all_placed(batches@, counts@, size),
        decreases counts@.len() - matrix,
    {
        let count: usize = counts[matrix];
        let own: Vec<Batch> = feature_batches(count, size);
        let mut at: usize = 0;
        while at < own.len()
            invariant
                matrix < counts@.len(),
                count == counts@[matrix as int],
                at <= own@.len(),
                cuts(own@, count, size),
                features_in(batches@) == offset(counts@, matrix as int) + if at == 0 {
                    0
                } else {
                    own@[at - 1].end as int
                },
                all_placed(batches@, counts@, size),
            decreases own@.len() - at,
        {
            let ghost before = batches@;
            let batch: Batch = own[at];
            proof {
                if at > 0 {
                    assert(own@[at - 1].end == own@[at - 1 + 1].start);
                }
                lemma_within(own@, count, size, at as int);
            }
            batches.push(MatrixBatch { matrix, batch });
            proof {
                assert(batches@.drop_last() =~= before);
                assert forall|i: int| 0 <= i < batches@.len() implies placed(
                    #[trigger] batches@[i],
                    batches@.take(i),
                    counts@,
                    size,
                ) by {
                    if i < before.len() {
                        assert(batches@[i] == before[i]);
                        assert(batches@.take(i) =~= before.take(i));
                    } else {
                        assert(batches@.take(i) =~= before);
                    }
                }
            }
            at = at + 1;
        }
        matrix = matrix + 1;
    }
    batches
}

/// A batch ends within its matrix, and short of the end only with full size.
proof fn lemma_within(batches: Seq<Batch>, features: usize, size: usize, i: int)
    requires
        cuts(batches, features, size),
        0 <= i < batches.len(),
    ensures
        batches[i].end <= features,
        batches[i].end < features ==> batches[i].end - batches[i].start == size,
{
    let last = batches.len() - 1;
    if i < last {
        lemma_ordered(batches, features, size, i, last);
        assert(batches[last].start < batches[last].end);
    }
}

/// A slot is filled by one of the batches.
proof fn lemma_slot_is_filled(batches: Seq<MatrixBatch>, slot: int)
    requires
        0 <= slot < features_in(batches),
    ensures
        exists|i: int|
            0 <= i < batches.len() && features_in(#[trigger] batches.take(i)) <= slot
                < features_in(batches.take(i)) + batches[i].batch.end - batches[i].batch.start,
    decreases batches.len(),
{
    let last = batches.len() - 1;
    let before = batches.drop_last();
    if slot < features_in(before) {
        lemma_slot_is_filled(before, slot);
        let i = choose|i: int|
            0 <= i < before.len() && features_in(#[trigger] before.take(i)) <= slot < features_in(
                before.take(i),
            ) + before[i].batch.end - before[i].batch.start;
        assert(batches.take(i) =~= before.take(i));
        assert(batches[i] == before[i]);
    } else {
        assert(batches.take(last) =~= before);
    }
}

/// The features of more matrices are no fewer.
proof fn lemma_offset_grows(counts: Seq<usize>, m: int, n: int)
    requires
        0 <= m <= n <= counts.len(),
    ensures
        offset(counts, m) <= offset(counts, n),
    decreases n - m,
{
    if m < n {
        lemma_offset_grows(counts, m, n - 1);
    }
}

/// Where the batches are described in order and appended, feature `f` of matrix `m` gets the slot
/// that is `f` behind the features of the matrices before it.
pub proof fn law_features_get_their_slots(
    batches: Seq<MatrixBatch>,
    counts: Seq<usize>,
    size: usize,
    m: int,
    f: int,
)
    requires
        walks(batches, counts, size),
        0 <= m < counts.len(),
        0 <= f < counts[m],
    ensures
        exists|i: int|
            0 <= i < batches.len() && (#[trigger] batches[i]).matrix == m && batches[i].batch.start
                <= f < batches[i].batch.end && features_in(batches.take(i)) + (f
                - batches[i].batch.start) == offset(counts, m) + f,
{
    let slot = offset(counts, m) + f;
    lemma_offset_grows(counts, 0, m);
    lemma_offset_grows(counts, m + 1, counts.len() as int);
    lemma_slot_is_filled(batches, slot);
    let i = choose|i: int|
        0 <= i < batches.len() && features_in(#[trigger] batches.take(i)) <= slot < features_in(
            batches.take(i),
        ) + batches[i].batch.end - batches[i].batch.start;
    let other = batches[i].matrix as int;
    assert(features_in(batches.take(i)) == offset(counts, other) + batches[i].batch.start);
    if other < m {
        lemma_offset_grows(counts, other + 1, m);
    } else if m < other {
        lemma_offset_grows(counts, m + 1, other);
    }
}

// ── A feature's tokens ──────────────────────────────────────────────────────

/// A token that a feature writes strongly.
pub struct TopKEntry {
    /// The token's text, trimmed.
    pub token: String,
    /// The token's number in the vocabulary.
    pub token_id: u32,
    /// Bit pattern of the token's score.
    pub logit: u32,
}

/// A [`TopKEntry`] with its text as characters.
#[verifier::ext_equal]
pub struct TopKEntryView {
    /// The token's text.
    pub token: Seq<char>,
    /// The token's number.
    pub token_id: u32,
    /// Bit pattern of the score.
    pub logit: u32,
}

impl View for TopKEntry {
    type V = TopKEntryView;

    open spec fn view(&self) -> TopKEntryView {
        TopKEntryView { token: self.token@, token_id: self.token_id, logit: self.logit }
    }
}

/// What is kept of one feature.
pub struct FeatureMeta {
    /// Text of the strongest token.
    pub top_token: String,
    /// Number of the strongest token.
    pub top_token_id: u32,
    /// Bit pattern of the strongest token's score.
    pub c_score: u32,
    /// The strongest tokens, strongest first.
    pub top_k: Vec<TopKEntry>,
}

impl FeatureMeta {
    /// The entries, with their texts as characters.
    pub open spec fn entries(&self) -> Seq<TopKEntryView> {
        Seq::new(self.top_k@.len(), |i: int| self.top_k@[i]@)
    }
}

/// What a picked score and the text of its token give: an entry, unless the token did not decode
/// or is blank.
pub open spec fn entry_of(score: Scored, text: Option<Seq<char>>) -> Option<TopKEntryView> {
    match text {
        Some(raw) => if crate::text::trimmed(raw).len() > 0 {
            Some(
                TopKEntryView {
                    token: crate::text::trimmed(raw),
                    token_id: score.index as u32,
                    logit: score.bits,
                },
            )
        } else {
            None
        },
        None => None,
    }
}

/// The entry that a picked score gives, with the decoded text of every token in `vocabulary`.
pub open spec fn entry_at(score: Scored, vocabulary: Seq<Option<String>>) -> Option<TopKEntryView> {
    entry_of(score, crate::text::text_of(vocabulary[score.index as int]))
}

/// The entries of a feature: of its picked scores those whose token has text, in order.
/// `vocabulary` holds the decoded text of every token.
pub open spec fn entries_of(picked: Seq<Scored>, vocabulary: Seq<Option<String>>) -> Seq<
    TopKEntryView,
> {
    crate::lists::present_of(
        Seq::new(picked.len(), |i: int| entry_at(picked[i], vocabulary)),
    )
}

/// A feature's entries name it: the first of them, or, where there is none, an empty text, number
/// zero and score zero.
pub open spec fn named_by_entries(meta: FeatureMeta) -> bool {
    if meta.entries().len() > 0 {
        &&& meta.top_token@ == meta.entries()[0].token
        &&& meta.top_token_id == meta.entries()[0].token_id
        &&& meta.c_score == meta.entries()[0].logit
    } else {
        &&& meta.top_token@ == Seq::<char>::empty()
        &&& meta.top_token_id == 0
        &&& meta.c_score == 0
    }
}

/// Describes a feature by its picked scores and the text of each one's token.
pub fn feature_meta(picked: &Vec<Scored>, vocabulary: &Vec<Option<String>>) -> (meta: FeatureMeta)
    requires
        forall|i: int| 0 <= i < picked@.len() ==> (#[trigger] picked@[i]).index < vocabulary@.len(),
    ensures
        meta.entries() == entries_of(picked@, vocabulary@),
        named_by_entries(meta),
{
    let len: usize = picked.len();
    let ghost all = Seq::new(picked@.len(), |i: int| entry_at(picked@[i], vocabulary@));
    let mut top_k: Vec<TopKEntry> = Vec::new();
    let mut at: usize = 0;
    assert(all.take(0) =~= Seq::empty());
    while at < len
        invariant
            at <= len == picked@.len(),
            forall|i: int|
                0 <= i < picked@.len() ==> (#[trigger] picked@[i]).index < vocabulary@.len(),
            all == Seq::new(picked@.len(), |i: int| entry_at(picked@[i], vocabulary@)),
            Seq::new(top_k@.len(), |i: int| top_k@[i]@) =~= crate::lists::present_of(
                all.take(at as int),
            ),
        decreases len - at,
    {
        let ghost before = top_k@;
        let score: Scored = picked[at];
        proof {
            assert(all.take(at + 1).drop_last() =~= all.take(at as int));
            assert(all.take(at + 1).last() == entry_at(score, vocabulary@));
        }
        if let Some(raw) = &vocabulary[score.index] {
            let token: &str = trim(raw.as_str());
            if !token.is_empty() {
                top_k.push(
                    TopKEntry {
                        token: token.to_owned(),
                        token_id: score.index as u32,
                        logit: score.bits,
                    },
                );
                assert(Seq::new(top_k@.len(), |i: int| top_k@[i]@) =~= Seq::new(
                    before.len(),
                    |i: int| before[i]@,
                ).push(top_k@.last()@));
            }
        }
        at = at + 1;
    }
    assert(all.take(len as int) =~= all);
    let mut top_token: String = String::new();
    let mut top_token_id: u32 = 0;
    let mut c_score: u32 = 0;
    if top_k.len() > 0 {
        top_token = top_k[0].token.clone();
        top_token_id = top_k[0].token_id;
        c_score = top_k[0].logit;
    }
    FeatureMeta { top_token, top_token_id, c_score, top_k }
}

/// `meta` describes the feature whose scores over the vocabulary are `column`, by its best `k`.
pub open spec fn describes_column(
    meta: FeatureMeta,
    column: Seq<u32>,
    k: nat,
    vocabulary: Seq<Option<String>>,
) -> bool {
    &&& exists|picked: Seq<Scored>| #[trigger]
        crate::top_k::is_top(picked, column, k) && meta.entries() == entries_of(picked, vocabulary)
    &&& named_by_entries(meta)
}

/// Describes the features of a batch, each by its column of scores, and appends them to the
/// layer's slots. Returns how many scores of each column are not numbers and take no part.
pub fn describe_batch(
    columns: &Vec<Vec<u32>>,
    k: usize,
    vocabulary: &Vec<Option<String>>,
    slots: &mut Vec<Option<FeatureMeta>>,
) -> (nan_counts: Vec<usize>)
    requires
        forall|i: int| 0 <= i < columns@.len() ==> (#[trigger] columns@[i])@.len()
            <= vocabulary@.len(),
    ensures
        final(slots)@.len() == old(slots)@.len() + columns@.len(),
        forall|i: int| 0 <= i < old(slots)@.len() ==> #[trigger] final(slots)@[i] == old(slots)@[i],
        forall|i: int|
            old(slots)@.len() <= i < final(slots)@.len() ==> {
                &&& (#[trigger] final(slots)@[i]) is Some
                &&& describes_column(
                    final(slots)@[i]->0,
                    columns@[i - old(slots)@.len()]@,
                    k as nat,
                    vocabulary@,
                )
            },
        nan_counts@.len() == columns@.len(),
        forall|i: int|
            0 <= i < columns@.len() ==> #[trigger] nan_counts@[i] == columns@[i]@.len()
                - crate::top_k::number_count(columns@[i]@),
{
    let ghost before = slots@;
    let mut nan_counts: Vec<usize> = Vec::new();
    let mut at: usize = 0;
    while at < columns.len()
        invariant
            at <= columns@.len(),
            forall|i: int|
                0 <= i < columns@.len() ==> (#[trigger] columns@[i])@.len() <= vocabulary@.len(),
            slots@.len() == before.len() + at,
            forall|i: int| 0 <= i < before.len() ==> #[trigger] slots@[i] == before[i],
            forall|i: int|
                before.len() <= i < slots@.len() ==> {
                    &&& (#[trigger] slots@[i]) is Some
                    &&& describes_column(
                        slots@[i]->0,
                        columns@[i - before.len()]@,
                        k as nat,
                        vocabulary@,
                    )
                },
            nan_counts@.len() == at,
            forall|i: int|
                0 <= i < at ==> #[trigger] nan_counts@[i] == columns@[i]@.len()
                    - crate::top_k::number_count(columns@[i]@),
        decreases columns@.len() - at,
    {
        let top = select_top(&columns[at], k);
        assert forall|i: int| 0 <= i < top.picked@.len() implies (
        #[trigger] top.picked@[i]).index < vocabulary@.len() by {
            assert(crate::top_k::candidate(top.picked@[i], columns@[at as int]@));
        }
        let meta = feature_meta(&top.picked, vocabulary);
        assert(crate::top_k::is_top(top.picked@, columns@[at as int]@, k as nat)
            && meta.entries() == entries_of(top.picked@, vocabulary@));
        nan_counts.push(top.nan_count);
        slots.push(Some(meta));
        at = at + 1;
    }
    nan_counts
}

/// The prefix of a feature's entries that its first `n` picked scores give.
proof fn lemma_entries_upto(picked: Seq<Scored>, vocabulary: Seq<Option<String>>, n: int)
    requires
        0 < n <= picked.len(),
    ensures
        ({
            let now = entries_of(picked.take(n), vocabulary);
            let before = entries_of(picked.take(n - 1), vocabulary);
            match entry_at(picked[n - 1], vocabulary) {
                Some(entry) => now == before.push(entry),
                None => now == before,
            }
        }),
{
    let all = Seq::new(n as nat, |i: int| entry_at(picked.take(n)[i], vocabulary));
    assert(all.drop_last() =~= Seq::new(
        (n - 1) as nat,
        |i: int| entry_at(picked.take(n - 1)[i], vocabulary),
    ));
}

/// The law below, for the entries that the first `n` picked scores give.
proof fn lemma_entries(
    picked: Seq<Scored>,
    vocabulary: Seq<Option<String>>,
    column: Seq<u32>,
    k: nat,
    n: int,
)
    requires
        crate::top_k::is_top(picked, column, k),
        0 <= n <= picked.len(),
    ensures
        ({
            let entries = entries_of(picked.take(n), vocabulary);
            &&& entries.len() <= n
            &&& forall|i: int| 0 <= i < entries.len() ==> (#[trigger] entries[i]).token.len() > 0
            &&& forall|i: int|
                0 <= i < entries.len() ==> exists|j: int|
                    0 <= j < n && (#[trigger] picked[j]).bits == (#[trigger] entries[i]).logit
            &&& forall|i: int, j: int|
                0 <= i < j < entries.len() ==> crate::float_bits::total_rank(
                    (#[trigger] entries[j]).logit,
                ) <= crate::float_bits::total_rank((#[trigger] entries[i]).logit)
        }),
    decreases n,
{
    if n > 0 {
        lemma_entries(picked, vocabulary, column, k, n - 1);
        lemma_entries_upto(picked, vocabulary, n);
        let before = entries_of(picked.take(n - 1), vocabulary);
        let now = entries_of(picked.take(n), vocabulary);
        assert forall|i: int, j: int| 0 <= i < j < now.len() implies crate::float_bits::total_rank(
            (#[trigger] now[j]).logit,
        ) <= crate::float_bits::total_rank((#[trigger] now[i]).logit) by {
            assert(now[i] == before[i]);
            if j < before.len() {
                assert(now[j] == before[j]);
            } else {
                let from = choose|from: int|
                    0 <= from < n - 1 && (#[trigger] picked[from]).bits == before[i].logit;
                assert(crate::top_k::beats(picked[from], picked[n - 1]));
            }
        }
        assert forall|i: int| 0 <= i < now.len() implies exists|j: int|
            0 <= j < n && (#[trigger] picked[j]).bits == (#[trigger] now[i]).logit by {
            if i < before.len() {
                assert(now[i] == before[i]);
            } else {
                assert(picked[n - 1].bits == now[i].logit);
            }
        }
    } else {
        assert(entries_of(picked.take(0), vocabulary) =~= Seq::empty());
    }
}

/// No entry of a feature is blank, and the entries stand by falling score: the token that names
/// the feature is the strongest of those with text.
pub proof fn law_entries_have_text_and_fall(
    meta: FeatureMeta,
    column: Seq<u32>,
    k: nat,
    vocabulary: Seq<Option<String>>,
)
    requires
        describes_column(meta, column, k, vocabulary),
    ensures
        meta.entries().len() <= k,
        forall|i: int|
            0 <= i < meta.entries().len() ==> (#[trigger] meta.entries()[i]).token.len() > 0,
        forall|i: int, j: int|
            0 <= i < j < meta.entries().len() ==> crate::float_bits::total_rank(
                (#[trigger] meta.entries()[j]).logit,
            ) <= crate::float_bits::total_rank((#[trigger] meta.entries()[i]).logit),
{
    let picked = choose|picked: Seq<Scored>| #[trigger]
        crate::top_k::is_top(picked, column, k) && meta.entries() == entries_of(picked, vocabulary);
    lemma_entries(picked, vocabulary, column, k, picked.len() as int);
    assert(picked.take(picked.len() as int) =~= picked);
}

/// A column has one description.
pub proof fn law_description_is_unique(
    one: FeatureMeta,
    other: FeatureMeta,
    column: Seq<u32>,
    k: nat,
    vocabulary: Seq<Option<String>>,
)
    requires
        describes_column(one, column, k, vocabulary),
        describes_column(other, column, k, vocabulary),
    ensures
        one.entries() == other.entries(),
        one.top_token@ == other.top_token@,
        one.top_token_id == other.top_token_id,
        one.c_score == other.c_score,
{
    let first = choose|picked: Seq<Scored>| #[trigger]
        crate::top_k::is_top(picked, column, k) && one.entries() == entries_of(picked, vocabulary);
    let second = choose|picked: Seq<Scored>| #[trigger]
        crate::top_k::is_top(picked, column, k) && other.entries() == entries_of(
            picked,
            vocabulary,
        );
    crate::top_k::law_top_is_unique(first, second, column, k);
}

// ── Putting layers together ─────────────────────────────────────────────────

/// A layer's number and what was found of its features.
pub struct LayerResult<M> {
    /// The layer.
    pub layer: usize,
    /// Its feature slots; none where the layer has no down matrices.
    pub slots: Vec<Option<M>>,
}

/// What a layer holds after `results`: the slots last found for it, unless there were none.
pub open spec fn layer_slots<M, E>(
    results: Seq<Result<LayerResult<M>, E>>,
    layer: int,
) -> Option<Vec<Option<M>>>
    decreases results.len(),
{
    if results.len() == 0 {
        None
    } else {
        match results.last() {
            Ok(found) => if found.layer == layer && found.slots@.len() > 0 {
                Some(found.slots)
            } else {
                layer_slots(results.drop_last(), layer)
            },
            Err(_) => layer_slots(results.drop_last(), layer),
        }
    }
}

/// The first error of `results`.
pub open spec fn first_error<M, E>(results: Seq<Result<LayerResult<M>, E>>) -> Option<E>
    decreases results.len(),
{
    if results.len() == 0 {
        None
    } else {
        match results[0] {
            Err(error) => Some(error),
            Ok(_) => first_error(results.drop_first()),
        }
    }
}

/// Whether `all` is what gathering the results of `num_layers` layers gives.
pub open spec fn is_gathered<M, E>(
    all: Result<Vec<Option<Vec<Option<M>>>>, E>,
    num_layers: usize,
    results: Seq<Result<LayerResult<M>, E>>,
) -> bool {
    match all {
        Ok(layers) => {
            &&& first_error(results) is None
            &&& layers@.len() == num_layers
            &&& forall|layer: int|
                0 <= layer < num_layers ==> #[trigger] layers@[layer] == layer_slots(
                    results,
                    layer,
                )
        },
        Err(error) => first_error(results) == Some(error),
    }
}

/// Puts the results of the layers in their places, or fails with the first error among them.
pub fn gather_layers<M, E>(
    num_layers: usize,
    results: Vec<Result<LayerResult<M>, E>>,
) -> (all: Result<Vec<Option<Vec<Option<M>>>>, E>)
    requires
        forall|i: int|
            0 <= i < results@.len() ==> ((#[trigger] results@[i]) matches Ok(found) ==> found.layer
                < num_layers),
    ensures
        is_gathered(all, num_layers, results@),
{
    let ghost given = results@;
    let mut layers: Vec<Option<Vec<Option<M>>>> = Vec::new();
    let mut at: usize = 0;
    while at < num_layers
        invariant
            at <= num_layers,
            layers@.len() == at,
            forall|layer: int| 0 <= layer < at ==> #[trigger] layers@[layer] is None,
        decreases num_layers - at,
    {
        layers.push(None);
        at = at + 1;
    }
    assert(given.take(0) =~= Seq::empty());
    assert(given.skip(0) =~= given);
    for result in it: results
        invariant
            it.seq() == given,
            layers@.len() == num_layers,
            forall|i: int|
                0 <= i < given.len() ==> ((#[trigger] given[i]) matches Ok(found) ==> found.layer
                    < num_layers),
            first_error(given) == first_error(given.skip(it.index())),
            forall|layer: int|
                0 <= layer < num_layers ==> #[trigger] layers@[layer] == layer_slots(
                    given.take(it.index()),
                    layer,
                ),
    {
        let ghost n = it.index();
        proof {
            assert(given[n] == result);
            assert(given.take(n + 1).drop_last() =~= given.take(n));
            assert(given.take(n + 1).last() == result);
            assert(given.skip(n)[0] == result);
            assert(given.skip(n).drop_first() =~= given.skip(n + 1));
        }
        match result {
            Ok(found) => {
                if found.slots.len() > 0 {
                    let layer: usize = found.layer;
                    layers[layer] = Some(found.slots);
                }
            },
            Err(error) => {
                return Err(error);
            },
        }
    }
    assert(given.take(given.len() as int) =~= given);
    assert(given.skip(given.len() as int) =~= Seq::empty());
    Ok(layers)
}

// ── What the results are, of the inputs ─────────────────────────────────────

/// A stage is announced first, and builds the vocabulary. A resumed one says so; any other projects
/// the layers, then writes the file, then reports that it is done, then marks the checkpoint.
pub proof fn law_stage_does_its_steps_in_order(resumed: bool, i: int, j: int)
    requires
        0 <= i < stage_steps(resumed).len(),
        0 <= j < stage_steps(resumed).len(),
    ensures
        stage_steps(resumed)[0] == DownMetaStep::AnnounceStage,
        stage_steps(resumed).contains(DownMetaStep::BuildVocabulary),
        stage_steps(resumed).contains(DownMetaStep::NoticeSkip) <==> resumed,
        stage_steps(resumed).contains(DownMetaStep::ProjectLayers) <==> !resumed,
        stage_steps(resumed).contains(DownMetaStep::WriteBinary) <==> !resumed,
        stage_steps(resumed).contains(DownMetaStep::StageDone) <==> !resumed,
        stage_steps(resumed).contains(DownMetaStep::MarkCheckpoint) <==> !resumed,
        i != j ==> stage_steps(resumed)[i] != stage_steps(resumed)[j],
        stage_steps(resumed)[i] == DownMetaStep::BuildVocabulary && stage_steps(resumed)[j]
            == DownMetaStep::ProjectLayers ==> i < j,
        stage_steps(resumed)[i] == DownMetaStep::ProjectLayers && stage_steps(resumed)[j]
            == DownMetaStep::WriteBinary ==> i < j,
        stage_steps(resumed)[i] == DownMetaStep::WriteBinary && stage_steps(resumed)[j]
            == DownMetaStep::StageDone ==> i < j,
        stage_steps(resumed)[i] == DownMetaStep::StageDone && stage_steps(resumed)[j]
            == DownMetaStep::MarkCheckpoint ==> i < j,
{
    let steps = stage_steps(resumed);
    if resumed {
        assert(steps[1] == DownMetaStep::NoticeSkip);
        assert(steps[2] == DownMetaStep::BuildVocabulary);
    } else {
        assert(steps[1] == DownMetaStep::BuildVocabulary);
        assert(steps[2] == DownMetaStep::ProjectLayers);
        assert(steps[3] == DownMetaStep::WriteBinary);
        assert(steps[4] == DownMetaStep::StageDone);
        assert(steps[5] == DownMetaStep::MarkCheckpoint);
    }
}

/// Packed MXFP4 tensors are read as such in any model. Experts are read one by one exactly in a
/// model of experts that are not packed, all of them; every other model has one dense tensor.
pub proof fn law_matrices_come_from_where_they_are_stored(
    format: ExpertFormat,
    is_moe: bool,
    n_experts: usize,
)
    ensures
        source_of(format, is_moe, n_experts) == DownSource::Packed <==> format
            == ExpertFormat::PackedMxfp4,
        source_of(format, is_moe, n_experts) is Experts <==> is_moe && n_experts > 0 && format
            != ExpertFormat::PackedMxfp4 && format != ExpertFormat::PackedBF16,
        source_of(format, is_moe, n_experts) is Experts ==> source_of(format, is_moe, n_experts)
            == DownSource::Experts(n_experts),
{
}

/// A layer's packed tensors are absent exactly where one of them is not listed. Where both archives
/// parse and have their tensors, the sizes are the first three extents of the block tensor, a row
/// is as wide as its groups of 32, and the bytes are those of the two tensors.
pub proof fn law_packed_matrices_are_what_the_archives_hold(
    read: Result<PackedRead<'_>, VindexError>,
    blocks: Option<TensorPlace<'_>>,
    scales: Option<TensorPlace<'_>>,
)
    requires
        is_packed_read(read, blocks, scales),
    ensures
        read matches Ok(PackedRead::Absent) <==> blocks is None || scales is None,
        blocks is Some && scales is Some && crate::header::data_ends_fit(blocks->0.shard@)
            && crate::header::data_ends_fit(scales->0.shard@) ==> match (
            crate::archive::parsed_archive(blocks->0.shard@),
            crate::archive::parsed_archive(scales->0.shard@),
        ) {
            (Some(one), Some(other)) => if one.contains_key(blocks->0.name@) && other.contains_key(
                scales->0.name@,
            ) {
                let (shape, data) = one[blocks->0.name@];
                if shape.len() >= 3 && shape[2] * 32 <= usize::MAX {
                    read matches Ok(PackedRead::Loaded(packed)) && packed.n_experts == shape[0]
                        && packed.out_features == shape[1] && packed.groups == shape[2]
                        && packed.in_features == shape[2] * 32 && packed.blocks@ == data
                        && packed.scales@ == other[scales->0.name@].1
                } else {
                    read matches Ok(PackedRead::Misshapen)
                }
            } else {
                read is Err
            },
            _ => read is Err,
        },
{
}

/// A missing key is looked up as the empty one, and any other as it is.
pub proof fn law_missing_keys_are_empty(key: Option<Seq<char>>)
    ensures
        key is None ==> key_of(key).len() == 0,
        key is Some ==> Some(key_of(key)) == key,
{
}

/// Without a summary all features are described; with one, no more than it asks for, and all where
/// there are no more.
pub proof fn law_summary_bounds_the_features(full: usize, summary_k: usize)
    ensures
        summary_k == 0 ==> described_features(full, summary_k) == full,
        summary_k > 0 ==> described_features(full, summary_k) <= summary_k,
        described_features(full, summary_k) <= full,
        described_features(full, summary_k) < full ==> described_features(full, summary_k)
            == summary_k,
{
}

/// Batches follow each other without gaps, none is empty or over the size, and only the last may be
/// under it.
pub proof fn law_batches_are_full(batches: Seq<Batch>, features: usize, size: usize, i: int)
    requires
        cuts(batches, features, size),
        0 <= i < batches.len(),
    ensures
        batches[0].start == 0,
        batches[batches.len() - 1].end == features,
        batches[i].start < batches[i].end <= batches[i].start + size,
        i + 1 < batches.len() ==> batches[i].end == batches[i].start + size && batches[i + 1].start
            == batches[i].end,
{
}

/// The features of one more matrix come on top.
pub proof fn law_offsets_add_up(counts: Seq<usize>, m: int)
    requires
        0 <= m < counts.len(),
    ensures
        offset(counts, 0) == 0,
        offset(counts, m + 1) == offset(counts, m) + counts[m],
{
}

/// Later batches stand behind earlier ones.
proof fn lemma_batches_stand_in_order(batches: Seq<MatrixBatch>, i: int, j: int)
    requires
        0 <= i < j <= batches.len(),
        forall|k: int|
            0 <= k < batches.len() ==> (#[trigger] batches[k]).batch.start <= batches[k].batch.end,
    ensures
        features_in(batches.take(i)) + batches[i].batch.end - batches[i].batch.start <= features_in(
            batches.take(j),
        ),
    decreases j - i,
{
    assert(batches.take(j).drop_last() =~= batches.take(j - 1));
    assert(batches.take(j).last() == batches[j - 1]);
    assert(batches[j - 1].batch.start <= batches[j - 1].batch.end);
    if i < j - 1 {
        lemma_batches_stand_in_order(batches, i, j - 1);
    }
}

/// No feature of a matrix is in two batches of a layer, no batch is empty or over the size, and the
/// batches hold as many features as the matrices have.
pub proof fn law_no_feature_is_walked_twice(
    batches: Seq<MatrixBatch>,
    counts: Seq<usize>,
    size: usize,
    i: int,
    j: int,
    f: int,
)
    requires
        walks(batches, counts, size),
        0 <= i < batches.len(),
        0 <= j < batches.len(),
        batches[i].matrix == batches[j].matrix,
        batches[i].batch.start <= f < batches[i].batch.end,
        batches[j].batch.start <= f < batches[j].batch.end,
    ensures
        i == j,
        batches[i].matrix < counts.len(),
        f < counts[batches[i].matrix as int],
        batches[i].batch.end - batches[i].batch.start <= size,
        features_in(batches) == offset(counts, counts.len() as int),
{
    assert forall|k: int| 0 <= k < batches.len() implies (#[trigger] batches[k]).batch.start
        <= batches[k].batch.end by {
        assert(placed(batches[k], batches.take(k), counts, size));
    }
    assert(placed(batches[i], batches.take(i), counts, size));
    assert(placed(batches[j], batches.take(j), counts, size));
    if i < j {
        lemma_batches_stand_in_order(batches, i, j);
    } else if j < i {
        lemma_batches_stand_in_order(batches, j, i);
    }
}

/// A text that shows: one with a character that is not white space.
pub open spec fn shows(text: Option<String>) -> bool {
    text is Some && exists|i: int|
        0 <= i < text->0@.len() && !crate::text::white_space(#[trigger] text->0@[i])
}

/// A picked score gives an entry exactly where its token's text shows.
proof fn lemma_entry_where_text_shows(score: Scored, vocabulary: Seq<Option<String>>)
    ensures
        entry_at(score, vocabulary) is Some <==> shows(vocabulary[score.index as int]),
        entry_at(score, vocabulary) matches Some(entry) ==> {
            &&& entry.token == crate::text::trimmed(vocabulary[score.index as int]->0@)
            &&& entry.token_id == score.index as u32
            &&& entry.logit == score.bits
        },
{
    if let Some(text) = vocabulary[score.index as int] {
        crate::text::law_only_blank_texts_are_trimmed_away(text@);
        if crate::text::trimmed(text@).len() == 0 {
            assert(!shows(Some(text)));
        } else {
            let i = choose|i: int|
                0 <= i < text@.len() && !crate::text::white_space(#[trigger] text@[i]);
            assert(!crate::text::white_space(text@[i]));
        }
    }
}

/// Every picked score whose token's text shows has an entry, with the token's number, its score and
/// its text between the white space; and every entry is that of such a score.
pub proof fn law_tokens_that_show_have_entries(
    meta: FeatureMeta,
    picked: Seq<Scored>,
    vocabulary: Seq<Option<String>>,
    p: int,
    e: int,
)
    requires
        meta.entries() == entries_of(picked, vocabulary),
    ensures
        0 <= p < picked.len() && shows(vocabulary[picked[p].index as int]) ==> exists|at: int|
            0 <= at < meta.top_k@.len() && (#[trigger] meta.top_k@[at]).token_id
                == picked[p].index as u32 && meta.top_k@[at].logit == picked[p].bits
                && meta.top_k@[at].token@ == crate::text::trimmed(
                vocabulary[picked[p].index as int]->0@,
            ),
        0 <= e < meta.top_k@.len() ==> exists|at: int|
            0 <= at < picked.len() && shows(vocabulary[(#[trigger] picked[at]).index as int])
                && meta.top_k@[e].token_id == picked[at].index as u32 && meta.top_k@[e].logit
                == picked[at].bits && meta.top_k@[e].token@ == crate::text::trimmed(
                vocabulary[picked[at].index as int]->0@,
            ),
{
    let all = Seq::new(picked.len(), |i: int| entry_at(picked[i], vocabulary));
    let kept = crate::lists::present_of(all);
    assert(kept == meta.entries());
    if 0 <= p < picked.len() && shows(vocabulary[picked[p].index as int]) {
        lemma_entry_where_text_shows(picked[p], vocabulary);
        let entry = entry_at(picked[p], vocabulary)->0;
        assert(all[p] == Some(entry));
        crate::lists::law_exactly_the_items_are_kept(all, entry);
        let at = choose|at: int| 0 <= at < kept.len() && kept[at] == entry;
        assert(meta.top_k@[at]@ == entry);
    }
    if 0 <= e < meta.top_k@.len() {
        let entry = meta.top_k@[e]@;
        assert(kept[e] == entry);
        crate::lists::law_exactly_the_items_are_kept(all, entry);
        let at = choose|at: int| 0 <= at < all.len() && all[at] == Some(entry);
        assert(entry_at(picked[at], vocabulary) == Some(entry));
        lemma_entry_where_text_shows(picked[at], vocabulary);
    }
}

/// The first item that is there is the first that is kept.
proof fn lemma_first_kept<T>(items: Seq<Option<T>>, p: int)
    requires
        0 <= p < items.len(),
        items[p] is Some,
        forall|i: int| 0 <= i < p ==> (#[trigger] items[i]) is None,
    ensures
        crate::lists::present_of(items).len() > 0,
        crate::lists::present_of(items)[0] == items[p]->0,
    decreases items.len(),
{
    let before = items.drop_last();
    if p < before.len() {
        assert forall|i: int| 0 <= i < p implies (#[trigger] before[i]) is None by {
            assert(items[i] is None);
        }
        lemma_first_kept(before, p);
    } else {
        lemma_nothing_kept(before);
    }
}

/// Of a list of gaps nothing is kept.
proof fn lemma_nothing_kept<T>(items: Seq<Option<T>>)
    requires
        forall|i: int| 0 <= i < items.len() ==> (#[trigger] items[i]) is None,
    ensures
        crate::lists::present_of(items).len() == 0,
    decreases items.len(),
{
    if items.len() > 0 {
        assert(items.last() is None);
        let before = items.drop_last();
        assert forall|i: int| 0 <= i < before.len() implies (#[trigger] before[i]) is None by {
            assert(items[i] is None);
        }
        lemma_nothing_kept(before);
    }
}

/// A feature is named by the first of its picked scores whose token's text shows; where none does,
/// it has no entries and a blank name.
pub proof fn law_first_token_that_shows_is_the_name(
    meta: FeatureMeta,
    picked: Seq<Scored>,
    vocabulary: Seq<Option<String>>,
    p: int,
)
    requires
        meta.entries() == entries_of(picked, vocabulary),
        named_by_entries(meta),
        0 <= p <= picked.len(),
        forall|i: int|
            0 <= i < p ==> !shows(vocabulary[(#[trigger] picked[i]).index as int]),
    ensures
        p < picked.len() && shows(vocabulary[picked[p].index as int]) ==> {
            &&& meta.top_token@ == crate::text::trimmed(vocabulary[picked[p].index as int]->0@)
            &&& meta.top_token_id == picked[p].index as u32
            &&& meta.c_score == picked[p].bits
        },
        p == picked.len() ==> {
            &&& meta.top_k@.len() == 0
            &&& meta.top_token@.len() == 0
            &&& meta.top_token_id == 0
            &&& meta.c_score == 0
        },
{
    let all = Seq::new(picked.len(), |i: int| entry_at(picked[i], vocabulary));
    assert forall|i: int| 0 <= i < p implies (#[trigger] all[i]) is None by {
        lemma_entry_where_text_shows(picked[i], vocabulary);
    }
    if p < picked.len() {
        lemma_entry_where_text_shows(picked[p], vocabulary);
        if shows(vocabulary[picked[p].index as int]) {
            lemma_first_kept(all, p);
            assert(meta.entries()[0] == all[p]->0);
        }
    } else {
        lemma_nothing_kept(all);
        assert(meta.entries().len() == meta.top_k@.len());
    }
}

/// What describes a column goes by the best `k` of its scores.
pub proof fn law_descriptions_go_by_the_best_scores(
    meta: FeatureMeta,
    picked: Seq<Scored>,
    column: Seq<u32>,
    k: nat,
    vocabulary: Seq<Option<String>>,
)
    requires
        describes_column(meta, column, k, vocabulary),
        crate::top_k::is_top(picked, column, k),
    ensures
        meta.entries() == entries_of(picked, vocabulary),
        named_by_entries(meta),
{
    let own = choose|own: Seq<Scored>| #[trigger]
        crate::top_k::is_top(own, column, k) && meta.entries() == entries_of(own, vocabulary);
    crate::top_k::law_top_is_unique(own, picked, column, k);
}

/// The highest score of a column names its feature, where its token's text shows: of equal ones the
/// first.
pub proof fn law_highest_score_names_the_feature(
    meta: FeatureMeta,
    column: Seq<u32>,
    k: nat,
    vocabulary: Seq<Option<String>>,
    best: int,
)
    requires
        describes_column(meta, column, k, vocabulary),
        k > 0,
        0 <= best < column.len() <= usize::MAX,
        !crate::float_bits::nan(column[best]),
        forall|row: int|
            0 <= row < column.len() && row != best && !crate::float_bits::nan(column[row])
                ==> crate::float_bits::total_rank(#[trigger] column[row])
                < crate::float_bits::total_rank(column[best]) || (column[row] == column[best]
                && best < row),
        shows(vocabulary[best]),
    ensures
        meta.top_token@ == crate::text::trimmed(vocabulary[best]->0@),
        meta.top_token_id == best as u32,
        meta.c_score == column[best],
        meta.top_k@.len() > 0,
        meta.top_k@[0].token_id == best as u32,
{
    let picked = choose|picked: Seq<Scored>| #[trigger]
        crate::top_k::is_top(picked, column, k) && meta.entries() == entries_of(picked, vocabulary);
    crate::top_k::law_numbers_are_picked(picked, column, k, best);
    crate::top_k::law_picked_are_the_best_of_the_column(picked, column, k, best, 0, 0);
    if picked[0].index != best {
        let row = picked[0].index as int;
        assert(!crate::float_bits::nan(column[row]));
        if exists|p: int| 0 <= p < picked.len() && (#[trigger] picked[p]).index == best {
            let p = choose|p: int| 0 <= p < picked.len() && (#[trigger] picked[p]).index == best;
            crate::top_k::law_picked_are_the_best_of_the_column(picked, column, k, best, 0, p);
            crate::top_k::law_picked_are_the_best_of_the_column(picked, column, k, best, p, 0);
        }
    }
    law_first_token_that_shows_is_the_name(meta, picked, vocabulary, 0);
    assert(meta.entries().len() > 0) by {
        let all = Seq::new(picked.len(), |i: int| entry_at(picked[i], vocabulary));
        lemma_entry_where_text_shows(picked[0], vocabulary);
        assert(all[0] is Some);
        lemma_first_kept(all, 0);
    }
    assert(meta.top_k@[0]@ == meta.entries()[0]);
}

/// Gathering fails exactly where a layer failed, with the error of the first that did.
pub proof fn law_gathering_fails_with_the_first_error<M, E>(
    all: Result<Vec<Option<Vec<Option<M>>>>, E>,
    num_layers: usize,
    results: Seq<Result<LayerResult<M>, E>>,
)
    requires
        is_gathered(all, num_layers, results),
    ensures
        all is Ok <==> forall|i: int| 0 <= i < results.len() ==> (#[trigger] results[i]) is Ok,
        all matches Err(error) ==> exists|i: int|
            0 <= i < results.len() && #[trigger] results[i] == Err::<LayerResult<M>, E>(error) && (
            forall|j: int| 0 <= j < i ==> (#[trigger] results[j]) is Ok),
{
    lemma_first_error(results);
}

proof fn lemma_first_error<M, E>(results: Seq<Result<LayerResult<M>, E>>)
    ensures
        first_error(results) is None <==> forall|i: int|
            0 <= i < results.len() ==> (#[trigger] results[i]) is Ok,
        first_error(results) matches Some(error) ==> exists|i: int|
            0 <= i < results.len() && #[trigger] results[i] == Err::<LayerResult<M>, E>(error) && (
            forall|j: int| 0 <= j < i ==> (#[trigger] results[j]) is Ok),
    decreases results.len(),
{
    if results.len() > 0 {
        let rest = results.drop_first();
        lemma_first_error(rest);
        if results[0] is Ok {
            assert(first_error(results) == first_error(rest));
            if first_error(rest) is None {
                assert forall|i: int| 0 <= i < results.len() implies (
                #[trigger] results[i]) is Ok by {
                    if i > 0 {
                        assert(rest[i - 1] is Ok);
                    }
                }
            } else {
                let error = first_error(rest)->0;
                let i = choose|i: int|
                    0 <= i < rest.len() && #[trigger] rest[i] == Err::<LayerResult<M>, E>(error)
                        && (forall|j: int| 0 <= j < i ==> (#[trigger] rest[j]) is Ok);
                assert(results[i + 1] == Err::<LayerResult<M>, E>(error));
                assert forall|j: int| 0 <= j < i + 1 implies (#[trigger] results[j]) is Ok by {
                    if j > 0 {
                        assert(rest[j - 1] is Ok);
                    }
                }
            }
        } else {
            assert(results[0] is Err);
        }
    }
}

/// Every layer holds what was found of it: the slots of its result where it has any, and nothing
/// where no result of it has.
pub proof fn law_layers_hold_what_was_found<M, E>(
    layers: Vec<Option<Vec<Option<M>>>>,
    num_layers: usize,
    results: Seq<Result<LayerResult<M>, E>>,
    i: int,
    layer: int,
)
    requires
        is_gathered(Ok::<Vec<Option<Vec<Option<M>>>>, E>(layers), num_layers, results),
    ensures
        layers@.len() == num_layers,
        0 <= i < results.len() && results[i]->Ok_0.layer < num_layers
            && results[i]->Ok_0.slots@.len() > 0 && (forall|j: int|
            i < j < results.len() ==> (#[trigger] results[j])->Ok_0.layer
                != results[i]->Ok_0.layer) ==> layers@[results[i]->Ok_0.layer as int] == Some(
            results[i]->Ok_0.slots,
        ),
        0 <= layer < num_layers && (forall|j: int|
            0 <= j < results.len() ==> (#[trigger] results[j])->Ok_0.layer != layer
                || results[j]->Ok_0.slots@.len() == 0) ==> layers@[layer] is None,
{
    lemma_first_error(results);
    assert(first_error(results) is None);
    if 0 <= i < results.len() && results[i]->Ok_0.layer < num_layers
        && results[i]->Ok_0.slots@.len() > 0 && (forall|j: int|
        i < j < results.len() ==> (#[trigger] results[j])->Ok_0.layer != results[i]->Ok_0.layer) {
        assert(results[i] is Ok);
        lemma_last_result_stays(results, i);
        assert(layers@[results[i]->Ok_0.layer as int] == layer_slots(
            results,
            results[i]->Ok_0.layer as int,
        ));
    }
    if 0 <= layer < num_layers && (forall|j: int|
        0 <= j < results.len() ==> (#[trigger] results[j])->Ok_0.layer != layer
            || results[j]->Ok_0.slots@.len() == 0) {
        lemma_unfound_layer(results, layer);
        assert(layers@[layer] == layer_slots(results, layer));
    }
}

proof fn lemma_last_result_stays<M, E>(results: Seq<Result<LayerResult<M>, E>>, i: int)
    requires
        0 <= i < results.len(),
        forall|j: int| 0 <= j < results.len() ==> (#[trigger] results[j]) is Ok,
        results[i]->Ok_0.slots@.len() > 0,
        forall|j: int|
            i < j < results.len() ==> (#[trigger] results[j])->Ok_0.layer
                != results[i]->Ok_0.layer,
    ensures
        layer_slots(results, results[i]->Ok_0.layer as int) == Some(results[i]->Ok_0.slots),
    decreases results.len(),
{
    assert(results.last() == results[results.len() - 1]);
    if i < results.len() - 1 {
        let before = results.drop_last();
        assert forall|j: int| 0 <= j < before.len() implies (#[trigger] before[j]) is Ok by {
            assert(results[j] is Ok);
        }
        assert forall|j: int| i < j < before.len() implies (#[trigger] before[j])->Ok_0.layer
            != before[i]->Ok_0.layer by {
            assert(results[j] == before[j]);
        }
        lemma_last_result_stays(before, i);
    }
}

proof fn lemma_unfound_layer<M, E>(results: Seq<Result<LayerResult<M>, E>>, layer: int)
    requires
        forall|j: int| 0 <= j < results.len() ==> (#[trigger] results[j]) is Ok,
        forall|j: int|
            0 <= j < results.len() ==> (#[trigger] results[j])->Ok_0.layer != layer
                || results[j]->Ok_0.slots@.len() == 0,
    ensures
        layer_slots(results, layer) is None,
    decreases results.len(),
{
    if results.len() > 0 {
        assert(results.last() == results[results.len() - 1]);
        let before = results.drop_last();
        assert forall|j: int| 0 <= j < before.len() implies (#[trigger] before[j]) is Ok by {
            assert(results[j] is Ok);
        }
        assert forall|j: int| 0 <= j < before.len() implies (#[trigger] before[j])->Ok_0.layer
            != layer || before[j]->Ok_0.slots@.len() == 0 by {
            assert(results[j] == before[j]);
        }
        lemma_unfound_layer(before, layer);
    }
}

/// Packed tensors that cannot be read fail as any pair of tensors out of these archives does, the
/// blocks before the scales.
pub proof fn law_packed_tensors_fail_as_pairs_do(
    read: Result<PackedRead<'_>, VindexError>,
    blocks: TensorPlace<'_>,
    scales: TensorPlace<'_>,
)
    requires
        is_packed_read(read, Some(blocks), Some(scales)),
        read is Err,
    ensures
        crate::archive::is_pair(
            Err(read->Err_0),
            blocks.shard@,
            blocks.name@,
            scales.shard@,
            scales.name@,
        ),
{
}

/// Entries stand in the order of the picked scores: one more score adds one entry behind the
/// others where its token's text shows, and none where it does not.
pub proof fn law_entries_stand_in_order(
    picked: Seq<Scored>,
    score: Scored,
    vocabulary: Seq<Option<String>>,
)
    ensures
        entries_of(Seq::<Scored>::empty(), vocabulary).len() == 0,
        shows(vocabulary[score.index as int]) ==> entries_of(picked.push(score), vocabulary)
            == entries_of(picked, vocabulary).push(
            TopKEntryView {
                token: crate::text::trimmed(vocabulary[score.index as int]->0@),
                token_id: score.index as u32,
                logit: score.bits,
            },
        ),
        !shows(vocabulary[score.index as int]) ==> entries_of(picked.push(score), vocabulary)
            == entries_of(picked, vocabulary),
{
    let more = picked.push(score);
    let before = Seq::new(picked.len(), |i: int| entry_at(picked[i], vocabulary));
    let after = Seq::new(more.len(), |i: int| entry_at(more[i], vocabulary));
    lemma_entry_where_text_shows(score, vocabulary);
    assert(after.drop_last() =~= before);
    assert(after.last() == entry_at(score, vocabulary));
}

/// What is kept of a feature is seen as it is: an entry for each, with its text, number and score.
pub proof fn law_entries_are_seen_as_they_are(meta: FeatureMeta, i: int)
    requires
        0 <= i < meta.top_k@.len(),
    ensures
        meta.entries().len() == meta.top_k@.len(),
        meta.entries()[i].token == meta.top_k@[i].token@,
        meta.entries()[i].token_id == meta.top_k@[i].token_id,
        meta.entries()[i].logit == meta.top_k@[i].logit,
{
}

} // verus!

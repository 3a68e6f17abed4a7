//! The per-layer residual store when prefill and decode run on a backend.
//!
//! The backend dumps rows of residuals, one per layer and position. The store keeps the latest rows
//! of each layer in a hot tier. Older ones move to a cold tier, where each layer encodes them with
//! its codec and has their keys and values computed ahead. Rows and codecs are whatever the caller
//! uses; encoding, keys and values, and the backend are the caller's.

use vstd::prelude::*;

verus! {

// ── The store ───────────────────────────────────────────────────────────────

/// Rows per layer, as sequences.
pub open spec fn rows_of<R>(layers: Seq<Vec<R>>) -> Seq<Seq<R>> {
    Seq::new(layers.len(), |l: int| layers[l]@)
}

/// Which codec each layer's cold rows are encoded with.
pub struct BoundaryLayerPolicy<C> {
    /// The policy as it is kept in a store.
    pub entries: Vec<C>,
    /// The codec that the policy has for each layer.
    pub codecs: Vec<C>,
}

/// A layer of the cold tier. Its rows are encoded; they are known here, but not held.
pub struct ColdLayer<R, C> {
    /// The layer's codec.
    pub codec: C,
    /// How many rows are encoded.
    pub n_positions: usize,
    /// The rows, oldest first.
    pub rows: Ghost<Seq<R>>,
}

/// A [`ColdLayer`] as a mathematical value.
pub struct ColdLayerView<R, C> {
    /// The layer's codec.
    pub codec: C,
    /// How many rows are encoded.
    pub n_positions: usize,
    /// The rows, oldest first.
    pub rows: Seq<R>,
}

/// The residuals of a sequence, by layer.
pub struct RsStorePerLayer<R, C> {
    /// Rows in the hot tier, oldest first.
    pub stored: Vec<Vec<R>>,
    /// The cold tier, once there is one.
    pub cold_encoded: Option<Vec<ColdLayer<R, C>>>,
    /// How many cold rows of each layer have keys and values, once there is a cold tier.
    pub cold_kv: Option<Vec<usize>>,
    /// Position at which the cold tier starts.
    pub cold_abs_start: usize,
    /// Position of the next token.
    pub next_position: usize,
    /// Bound on the rows of the hot tier.
    pub max_window: Option<usize>,
    /// The policy's entries.
    pub policy_codecs: Vec<C>,
}

/// A [`RsStorePerLayer`] as a mathematical value.
#[verifier::ext_equal]
pub struct StoreView<R, C> {
    /// Rows in the hot tier.
    pub stored: Seq<Seq<R>>,
    /// The cold tier.
    pub cold: Option<Seq<ColdLayerView<R, C>>>,
    /// Cold rows with keys and values.
    pub cold_kv: Option<Seq<usize>>,
    /// Position at which the cold tier starts.
    pub cold_abs_start: nat,
    /// Position of the next token.
    pub next_position: nat,
    /// Bound on the rows of the hot tier.
    pub max_window: Option<usize>,
    /// The policy's entries.
    pub policy_codecs: Seq<C>,
}

/// The layers of a cold tier as mathematical values.
pub open spec fn cold_layers<R, C>(layers: Seq<ColdLayer<R, C>>) -> Seq<ColdLayerView<R, C>> {
    Seq::new(
        layers.len(),
        |l: int|
            ColdLayerView {
                codec: layers[l].codec,
                n_positions: layers[l].n_positions,
                rows: layers[l].rows@,
            },
    )
}

impl<R, C> View for RsStorePerLayer<R, C> {
    type V = StoreView<R, C>;

    open spec fn view(&self) -> StoreView<R, C> {
        StoreView {
            stored: rows_of(self.stored@),
            cold: match self.cold_encoded {
                Some(layers) => Some(cold_layers(layers@)),
                None => None,
            },
            cold_kv: match self.cold_kv {
                Some(counts) => Some(counts@),
                None => None,
            },
            cold_abs_start: self.cold_abs_start as nat,
            next_position: self.next_position as nat,
            max_window: self.max_window,
            policy_codecs: self.policy_codecs@,
        }
    }
}

impl<R, C> StoreView<R, C> {
    /// The counts of the cold tier are those of its rows. There are cold keys and values exactly
    /// where there is a cold tier, for every layer and every cold row.
    pub open spec fn wf(self) -> bool {
        &&& self.cold is Some <==> self.cold_kv is Some
        &&& self.cold is Some ==> {
            &&& self.cold->0.len() == self.stored.len()
            &&& self.cold_kv->0.len() == self.stored.len()
            &&& forall|l: int|
                #![trigger self.cold_kv->0[l]]
                #![trigger self.cold->0[l]]
                0 <= l < self.stored.len() ==> self.cold_kv->0[l] == self.cold->0[l].rows.len()
                    && self.cold->0[l].n_positions == self.cold->0[l].rows.len()
        }
    }

    /// The cold rows of a layer.
    pub open spec fn cold_rows(self, layer: int) -> Seq<R> {
        match self.cold {
            Some(layers) => layers[layer].rows,
            None => Seq::empty(),
        }
    }

    /// All rows of a layer, oldest first: the cold ones, then the hot ones.
    pub open spec fn layer_rows(self, layer: int) -> Seq<R> {
        self.cold_rows(layer) + self.stored[layer]
    }

    /// The codec of a layer: that of the cold tier, or, before there is one, the policy's.
    pub open spec fn codec(self, codecs: Seq<C>, layer: int) -> C {
        match self.cold {
            Some(layers) => layers[layer].codec,
            None => codecs[layer],
        }
    }

    /// All layers hold the same number of hot rows.
    pub open spec fn even(self) -> bool {
        forall|l: int|
            0 <= l < self.stored.len() ==> (#[trigger] self.stored[l]).len()
                == self.stored[0].len()
    }
}

// ── Eviction ────────────────────────────────────────────────────────────────

/// How many of a layer's hot rows are beyond the window.
pub open spec fn overflow_of(rows: nat, window: Option<usize>) -> nat {
    match window {
        Some(bound) => if rows > bound {
            (rows - bound) as nat
        } else {
            0
        },
        None => 0,
    }
}

/// The oldest rows of each layer, as far as they are beyond the window.
pub open spec fn overflow_rows<R>(stored: Seq<Seq<R>>, window: Option<usize>) -> Seq<Seq<R>> {
    Seq::new(stored.len(), |l: int| stored[l].take(overflow_of(stored[l].len(), window) as int))
}

/// The other rows of each layer.
pub open spec fn window_rows<R>(stored: Seq<Seq<R>>, window: Option<usize>) -> Seq<Seq<R>> {
    Seq::new(stored.len(), |l: int| stored[l].skip(overflow_of(stored[l].len(), window) as int))
}

/// Takes the rows beyond the window off each layer; returns what is kept and what is taken.
pub fn clip_overflow<R>(stored: Vec<Vec<R>>, window: Option<usize>) -> (parts: (
    Vec<Vec<R>>,
    Vec<Vec<R>>,
))
    ensures
        rows_of(parts.0@) == window_rows(rows_of(stored@), window),
        rows_of(parts.1@) == overflow_rows(rows_of(stored@), window),
{
    let mut kept: Vec<Vec<R>> = Vec::new();
    let mut taken: Vec<Vec<R>> = Vec::new();
    let ghost all = stored@;
    for layer in it: stored
        invariant
            it.seq() == all,
            kept@.len() == it.index(),
            taken@.len() == it.index(),
            forall|l: int|
                0 <= l < it.index() ==> (#[trigger] kept@[l])@ == all[l]@.skip(
                    overflow_of(all[l]@.len(), window) as int,
                ),
            forall|l: int|
                0 <= l < it.index() ==> (#[trigger] taken@[l])@ == all[l]@.take(
                    overflow_of(all[l]@.len(), window) as int,
                ),
    {
        let mut rows: Vec<R> = layer;
        let count: usize = match window {
            Some(bound) => if rows.len() > bound {
                rows.len() - bound
            } else {
                0
            },
            None => 0,
        };
        let latest: Vec<R> = rows.split_off(count);
        kept.push(latest);
        taken.push(rows);
    }
    assert(rows_of(kept@) =~= window_rows(rows_of(all), window));
    assert(rows_of(taken@) =~= overflow_rows(rows_of(all), window));
    (kept, taken)
}

/// A move of rows to the cold tier.
pub struct ColdMove<R, C> {
    /// The tier is made by this move: every layer gets a new encoder.
    pub create: bool,
    /// Position of the first row that is moved, at which keys and values are computed.
    pub abs_position: usize,
    /// The codec of each layer.
    pub codecs: Vec<C>,
    /// The rows that each layer encodes behind those that it holds.
    pub rows: Vec<Vec<R>>,
}

/// A [`ColdMove`] as a mathematical value.
#[verifier::ext_equal]
pub struct ColdMoveView<R, C> {
    /// The tier is made by this move.
    pub create: bool,
    /// Position of the first row that is moved.
    pub abs_position: nat,
    /// The codec of each layer.
    pub codecs: Seq<C>,
    /// The rows that each layer encodes.
    pub rows: Seq<Seq<R>>,
}

impl<R, C> View for ColdMove<R, C> {
    type V = ColdMoveView<R, C>;

    open spec fn view(&self) -> ColdMoveView<R, C> {
        ColdMoveView {
            create: self.create,
            abs_position: self.abs_position as nat,
            codecs: self.codecs@,
            rows: rows_of(self.rows@),
        }
    }
}

/// Whether rows are moved: the first layer decides for all.
pub open spec fn overflows<R, C>(store: StoreView<R, C>) -> bool {
    store.stored.len() > 0 && overflow_of(store.stored[0].len(), store.max_window) > 0
}

/// The store after the rows beyond the window left the hot tier: each layer's cold rows are
/// followed by those that it gave up, and have keys and values.
pub open spec fn evicted<R, C>(store: StoreView<R, C>, codecs: Seq<C>) -> StoreView<R, C> {
    let overflow = overflow_rows(store.stored, store.max_window);
    let hot = StoreView { stored: window_rows(store.stored, store.max_window), ..store };
    if overflows(store) {
        StoreView {
            cold: Some(
                Seq::new(
                    store.stored.len(),
                    |l: int|
                        ColdLayerView {
                            codec: store.codec(codecs, l),
                            n_positions: (store.cold_rows(l).len() + overflow[l].len()) as usize,
                            rows: store.cold_rows(l) + overflow[l],
                        },
                ),
            ),
            cold_kv: Some(
                Seq::new(
                    store.stored.len(),
                    |l: int| (store.cold_rows(l).len() + overflow[l].len()) as usize,
                ),
            ),
            ..hot
        }
    } else {
        hot
    }
}

/// The move that goes with an eviction.
pub open spec fn cold_move<R, C>(store: StoreView<R, C>, codecs: Seq<C>) -> Option<
    ColdMoveView<R, C>,
> {
    if overflows(store) {
        Some(
            ColdMoveView {
                create: store.cold is None,
                abs_position: store.cold_abs_start + store.cold_rows(0).len(),
                codecs: Seq::new(store.stored.len(), |l: int| store.codec(codecs, l)),
                rows: overflow_rows(store.stored, store.max_window),
            },
        )
    } else {
        None
    }
}

/// Whether `write` is the move `expected`.
pub open spec fn is_move<R, C>(
    write: Option<ColdMove<R, C>>,
    expected: Option<ColdMoveView<R, C>>,
) -> bool {
    match write {
        Some(made) => expected == Some(made@),
        None => expected is None,
    }
}

/// Where rows are moved, the counts of the cold tier and its end stay in range of `usize`.
pub open spec fn has_room<R, C>(store: StoreView<R, C>) -> bool {
    overflows(store) ==> {
        &&& store.cold_abs_start + store.cold_rows(0).len() <= usize::MAX
        &&& forall|l: int|
            0 <= l < store.stored.len() ==> store.cold_rows(l).len() + overflow_of(
                (#[trigger] store.stored[l]).len(),
                store.max_window,
            ) <= usize::MAX
    }
}

/// Where an eviction makes the cold tier, there is a codec for every layer.
pub open spec fn has_codecs<R, C>(store: StoreView<R, C>, codecs: Seq<C>) -> bool {
    overflows(store) && store.cold is None ==> codecs.len() >= store.stored.len()
}

/// Moves the rows beyond the window to the cold tier. `codecs` are the policy's, by layer.
pub fn evict_overflow<R, C: Copy>(store: RsStorePerLayer<R, C>, codecs: &Vec<C>) -> (after: (
    RsStorePerLayer<R, C>,
    Option<ColdMove<R, C>>,
))
    requires
        store@.wf(),
        has_room(store@),
        has_codecs(store@, codecs@),
    ensures
        after.0@.wf(),
        after.0@ == evicted(store@, codecs@),
        is_move(after.1, cold_move(store@, codecs@)),
{
    let ghost before = store@;
    let ghost overflow = overflow_rows(before.stored, before.max_window);
    let (stored, rows) = clip_overflow(store.stored, store.max_window);
    let layers: usize = rows.len();
    proof {
        assert(rows_of(rows@).len() == rows@.len());
        assert(layers == before.stored.len());
        if layers > 0 {
            assert(rows_of(rows@)[0] == rows@[0]@);
            assert(before.stored[0].len() >= 0);
        }
    }
    if layers == 0 || rows[0].len() == 0 {
        let after = RsStorePerLayer { stored, ..store };
        assert(after@ =~= evicted(before, codecs@));
        return (after, None);
    }
    let create: bool = store.cold_encoded.is_none();
    let first: usize = match &store.cold_encoded {
        Some(held) => held[0].n_positions,
        None => 0,
    };
    assert(first == before.cold_rows(0).len()) by {
        if before.cold is Some {
            assert(before.cold->0[0].n_positions == first);
        }
    }
    let abs_position: usize = store.cold_abs_start + first;
    let mut cold: Vec<ColdLayer<R, C>> = Vec::new();
    let mut kv: Vec<usize> = Vec::new();
    let mut used: Vec<C> = Vec::new();
    let mut at: usize = 0;
    while at < layers
        invariant
            at <= layers == rows@.len() == before.stored.len(),
            before == store@,
            before.wf(),
            overflows(before),
            has_room(before),
            has_codecs(before, codecs@),
            overflow == overflow_rows(before.stored, before.max_window),
            rows_of(rows@) == overflow,
            cold@.len() == at,
            kv@.len() == at,
            used@.len() == at,
            forall|l: int|
                0 <= l < at ==> {
                    &&& (#[trigger] cold@[l]).codec == before.codec(codecs@, l)
                    &&& cold@[l].rows@ == before.cold_rows(l) + overflow[l]
                    &&& cold@[l].n_positions == cold@[l].rows@.len()
                },
            forall|l: int|
                0 <= l < at ==> #[trigger] kv@[l] == before.cold_rows(l).len() + overflow[l].len(),
            forall|l: int| 0 <= l < at ==> #[trigger] used@[l] == before.codec(codecs@, l),
        decreases layers - at,
    {
        let (codec, held): (C, usize) = match &store.cold_encoded {
            Some(there) => (there[at].codec, there[at].n_positions),
            None => (codecs[at], 0),
        };
        let count: usize = rows[at].len();
        let ghost moved = before.cold_rows(at as int) + overflow[at as int];
        proof {
            assert(rows_of(rows@)[at as int] == rows@[at as int]@);
            if before.cold is Some {
                assert(before.cold->0[at as int].n_positions == held);
            }
            assert(held == before.cold_rows(at as int).len());
            assert(count == overflow_of(before.stored[at as int].len(), before.max_window));
        }
        cold.push(ColdLayer { codec, n_positions: held + count, rows: Ghost(moved) });
        kv.push(held + count);
        used.push(codec);
        at = at + 1;
    }
    let after = RsStorePerLayer {
        stored,
        cold_encoded: Some(cold),
        cold_kv: Some(kv),
        ..store
    };
    let write = ColdMove { create, abs_position, codecs: used, rows };
    proof {
        let expected = evicted(before, codecs@);
        assert(cold_layers(cold@) =~= expected.cold->0);
        assert(kv@ =~= expected.cold_kv->0);
        assert(after@ =~= expected);
        assert(write@ =~= cold_move(before, codecs@)->0);
    }
    (after, Some(write))
}

// ── Prefill ─────────────────────────────────────────────────────────────────

/// What a run of the backend left behind.
pub struct StateDump<R> {
    /// The dump covers every layer of the model.
    pub complete: bool,
    /// Rows dumped per layer, oldest first.
    pub rows: Vec<Vec<R>>,
}

/// A prompt that the backend has run.
pub struct PrefillRun<H, K, R> {
    /// The last hidden state.
    pub hidden: H,
    /// The backend's handle on its keys and values.
    pub handle: K,
    /// What it dumped.
    pub dump: StateDump<R>,
}

/// A prompt that is in the store.
pub struct Prefilled<H, K, R, C> {
    /// The last hidden state.
    pub hidden: H,
    /// The store.
    pub store: RsStorePerLayer<R, C>,
    /// The backend's handle.
    pub handle: K,
    /// Rows that go to the cold tier.
    pub write: Option<ColdMove<R, C>>,
}

/// Whether prefill runs on the backend at all: the weights have to support cached decode, and the
/// index direct products.
pub fn dispatch_supported(cached_decode: bool, direct_matvec: bool) -> (supported: bool)
    ensures
        supported == (cached_decode && direct_matvec),
{
    if !cached_decode || !direct_matvec {
        return false;
    }
    true
}

/// The store of a prompt before anything is evicted: all rows hot, nothing cold.
pub open spec fn prefilled<R, C>(
    rows: Seq<Seq<R>>,
    prompt_len: usize,
    window: Option<usize>,
    entries: Seq<C>,
) -> StoreView<R, C> {
    StoreView {
        stored: rows,
        cold: None,
        cold_kv: None,
        cold_abs_start: 0,
        next_position: prompt_len as nat,
        max_window: window,
        policy_codecs: entries,
    }
}

/// A copy of a list.
fn copied<C: Copy>(items: &Vec<C>) -> (copy: Vec<C>)
    ensures
        copy@ == items@,
{
    let mut copy: Vec<C> = Vec::new();
    let mut at: usize = 0;
    while at < items.len()
        invariant
            at <= items@.len(),
            copy@ == items@.take(at as int),
        decreases items@.len() - at,
    {
        copy.push(items[at]);
        assert(items@.take(at + 1) =~= items@.take(at as int).push(items@[at as int]));
        at = at + 1;
    }
    assert(items@.take(items@.len() as int) =~= items@);
    copy
}

/// Whether `result` is what a prefill gives on what the backend left: something exactly where the
/// dispatch is supported and the backend dumped every layer; then its hidden state and handle, and
/// the store of its rows.
pub open spec fn is_prefill<H, K, R, C>(
    supported: bool,
    run: Option<PrefillRun<H, K, R>>,
    prompt_len: usize,
    window: Option<usize>,
    entries: Seq<C>,
    codecs: Seq<C>,
    result: Option<Prefilled<H, K, R, C>>,
) -> bool {
    &&& result is Some <==> supported && (run matches Some(ran) && ran.dump.complete)
    &&& result matches Some(made) ==> {
        let fresh = prefilled(rows_of(run->0.dump.rows@), prompt_len, window, entries);
        &&& made.hidden == run->0.hidden
        &&& made.handle == run->0.handle
        &&& made.store@.wf()
        &&& made.store@ == evicted(fresh, codecs)
        &&& is_move(made.write, cold_move(fresh, codecs))
    }
}

/// Makes the store of a prompt, and moves what the window does not hold. None asks the caller to
/// fall back to the dense walk: the dispatch is not supported, the backend declined, or its dump
/// misses a layer.
pub fn try_prefill_via_dispatch<H, K, R, C: Copy>(
    cached_decode: bool,
    direct_matvec: bool,
    run: Option<PrefillRun<H, K, R>>,
    prompt_len: usize,
    window_size: Option<usize>,
    policy: &BoundaryLayerPolicy<C>,
) -> (result: Option<Prefilled<H, K, R, C>>)
    requires
        run matches Some(ran) ==> ran.dump.complete ==> has_codecs(
            prefilled(rows_of(ran.dump.rows@), prompt_len, window_size, policy.entries@),
            policy.codecs@,
        ),
    ensures
        is_prefill(
            cached_decode && direct_matvec,
            run,
            prompt_len,
            window_size,
            policy.entries@,
            policy.codecs@,
            result,
        ),
{
    if !dispatch_supported(cached_decode, direct_matvec) {
        return None;
    }
    match run {
        Some(ran) => {
            if !ran.dump.complete {
                return None;
            }
            let ghost rows = ran.dump.rows@;
            let store = RsStorePerLayer {
                stored: ran.dump.rows,
                cold_encoded: None,
                cold_kv: None,
                cold_abs_start: 0,
                next_position: prompt_len,
                max_window: window_size,
                policy_codecs: copied(&policy.entries),
            };
            proof {
                assert(store@ =~= prefilled(
                    rows_of(rows),
                    prompt_len,
                    window_size,
                    policy.entries@,
                ));
                assert forall|l: int| 0 <= l < store@.stored.len() implies (
                #[trigger] store@.stored[l]).len() <= usize::MAX by {
                    assert(rows[l].len() == rows[l]@.len());
                }
            }
            let (store, write) = evict_overflow(store, &policy.codecs);
            Some(Prefilled { hidden: ran.hidden, store, handle: ran.handle, write })
        },
        None => None,
    }
}

// ── Decode ──────────────────────────────────────────────────────────────────

/// What the backend is asked for: to run a token at a position.
#[derive(PartialEq, Eq, Structural, Clone, Copy, Debug)]
pub struct DecodeRequest {
    /// The token.
    pub token_id: u32,
    /// Its position in the sequence.
    pub abs_position: usize,
}

/// A token that the backend has run.
pub struct DecodeRun<H, R> {
    /// The hidden state.
    pub hidden: H,
    /// What it dumped.
    pub dump: StateDump<R>,
}

/// A token that is in the store.
pub struct Decoded<H, R, C> {
    /// The hidden state.
    pub hidden: H,
    /// The store.
    pub store: RsStorePerLayer<R, C>,
    /// Rows that go to the cold tier.
    pub write: Option<ColdMove<R, C>>,
}

/// Whether a request asks for a token at the store's next position.
pub open spec fn is_request<R, C>(
    request: DecodeRequest,
    store: StoreView<R, C>,
    token_id: u32,
) -> bool {
    request.token_id == token_id && request.abs_position == store.next_position
}

/// The one request of a decode step: the token, at the store's next position.
pub fn decode_request<R, C>(store: &RsStorePerLayer<R, C>, token_id: u32) -> (request:
    DecodeRequest)
    ensures
        is_request(request, store@, token_id),
{
    DecodeRequest { token_id, abs_position: store.next_position }
}

/// The first row that was dumped for each layer.
pub open spec fn first_rows<R>(rows: Seq<Seq<R>>) -> Seq<R> {
    Seq::new(rows.len(), |l: int| rows[l][0])
}

/// Takes the first row of each layer.
fn take_first_rows<R>(rows: Vec<Vec<R>>) -> (first: Vec<R>)
    requires
        forall|l: int| 0 <= l < rows@.len() ==> (#[trigger] rows@[l])@.len() > 0,
    ensures
        first@ == first_rows(rows_of(rows@)),
{
    let mut first: Vec<R> = Vec::new();
    let ghost all = rows@;
    for layer in it: rows
        invariant
            it.seq() == all,
            forall|l: int| 0 <= l < all.len() ==> (#[trigger] all[l])@.len() > 0,
            first@.len() == it.index(),
            forall|l: int| 0 <= l < it.index() ==> #[trigger] first@[l] == all[l]@[0],
    {
        let mut layer_rows: Vec<R> = layer;
        assert(all[it.index()] == layer);
        first.push(layer_rows.remove(0));
    }
    assert(first@ =~= first_rows(rows_of(all)));
    first
}

/// Appends a row to each layer.
pub fn append_rows<R>(stored: &mut Vec<Vec<R>>, dumped: Vec<R>)
    requires
        dumped@.len() == old(stored)@.len(),
    ensures
        final(stored)@.len() == old(stored)@.len(),
        forall|l: int|
            0 <= l < old(stored)@.len() ==> (#[trigger] final(stored)@[l])@
                == old(stored)@[l]@.push(dumped@[l]),
{
    let ghost before = stored@;
    let ghost all = dumped@;
    let layers: usize = stored.len();
    let mut at: usize = 0;
    for row in it: dumped
        invariant
            it.seq() == all,
            at == it.index(),
            all.len() == before.len() == layers,
            stored@.len() == before.len(),
            forall|l: int|
                0 <= l < at ==> (#[trigger] stored@[l])@ == before[l]@.push(all[l]),
            forall|l: int| at <= l < before.len() ==> #[trigger] stored@[l] == before[l],
    {
        assert(all[it.index()] == row);
        stored[at].push(row);
        at = at + 1;
    }
}

/// The store with one more row in each layer.
pub open spec fn appended<R, C>(store: StoreView<R, C>, dumped: Seq<R>) -> StoreView<R, C> {
    StoreView {
        stored: Seq::new(store.stored.len(), |l: int| store.stored[l].push(dumped[l])),
        next_position: store.next_position + 1,
        ..store
    }
}

/// The store after a decode step that dumped a row per layer.
pub open spec fn decoded<R, C>(store: StoreView<R, C>, dumped: Seq<R>, codecs: Seq<C>) -> StoreView<
    R,
    C,
> {
    evicted(appended(store, dumped), codecs)
}

/// Whether `result` is what a decode step gives on what the backend left: nothing exactly where the
/// backend failed or its dump misses a layer, else its hidden state and the store with a row more
/// in each layer.
pub open spec fn is_step<H, R, C>(
    store: StoreView<R, C>,
    run: Option<DecodeRun<H, R>>,
    codecs: Seq<C>,
    result: Option<Decoded<H, R, C>>,
) -> bool {
    &&& result is Some <==> (run matches Some(ran) && ran.dump.complete)
    &&& result matches Some(made) ==> {
        let dumped = first_rows(rows_of(run->0.dump.rows@));
        &&& made.hidden == run->0.hidden
        &&& made.store@.wf()
        &&& made.store@ == decoded(store, dumped, codecs)
        &&& is_move(made.write, cold_move(appended(store, dumped), codecs))
    }
}

/// Takes in the row that a decode step dumped for each layer, and moves what the window no longer
/// holds. None says that the backend failed or its dump misses a layer: the caller drops its handle
/// and falls back to the dense walk.
pub fn decode_step_via_dispatch<H, R, C: Copy>(
    store: RsStorePerLayer<R, C>,
    run: Option<DecodeRun<H, R>>,
    policy: &BoundaryLayerPolicy<C>,
) -> (result: Option<Decoded<H, R, C>>)
    requires
        store@.wf(),
        run matches Some(ran) ==> ran.dump.complete ==> {
            let more = appended(store@, first_rows(rows_of(ran.dump.rows@)));
            &&& ran.dump.rows@.len() == store.stored@.len()
            &&& forall|l: int|
                0 <= l < ran.dump.rows@.len() ==> (#[trigger] ran.dump.rows@[l])@.len() > 0
            &&& store.next_position < usize::MAX
            &&& has_room(more)
            &&& has_codecs(more, policy.codecs@)
        },
    ensures
        is_step(store@, run, policy.codecs@, result),
{
    match run {
        Some(ran) => {
            if !ran.dump.complete {
                return None;
            }
            let ghost before = store@;
            let ghost dumped = first_rows(rows_of(ran.dump.rows@));
            let mut next: RsStorePerLayer<R, C> = store;
            let first = take_first_rows(ran.dump.rows);
            append_rows(&mut next.stored, first);
            next.next_position = next.next_position + 1;
            assert(next@ =~= appended(before, dumped));
            let (store, write) = evict_overflow(next, &policy.codecs);
            Some(Decoded { hidden: ran.hidden, store, write })
        },
        None => None,
    }
}

// ── Laws ────────────────────────────────────────────────────────────────────

/// Every layer holds every position up to the next exactly once, from where the cold tier starts.
pub open spec fn accounts_for_all<R, C>(store: StoreView<R, C>) -> bool {
    forall|l: int|
        0 <= l < store.stored.len() ==> store.cold_abs_start + store.cold_rows(l).len() + (
        #[trigger] store.stored[l]).len() == store.next_position
}

/// The store after decode steps, each of which dumped a row per layer.
pub open spec fn after_steps<R, C>(
    store: StoreView<R, C>,
    steps: Seq<Seq<R>>,
    codecs: Seq<C>,
) -> StoreView<R, C>
    decreases steps.len(),
{
    if steps.len() == 0 {
        store
    } else {
        decoded(after_steps(store, steps.drop_last(), codecs), steps.last(), codecs)
    }
}

/// The rows that the steps dumped for a layer, in order.
pub open spec fn dumped_rows<R>(steps: Seq<Seq<R>>, layer: int) -> Seq<R> {
    Seq::new(steps.len(), |i: int| steps[i][layer])
}

/// Eviction keeps the tiers in step: cold keys and values for exactly the cold rows.
pub proof fn law_cold_keys_go_with_cold_rows<R, C>(store: StoreView<R, C>, codecs: Seq<C>)
    requires
        store.wf(),
        has_room(store),
    ensures
        evicted(store, codecs).wf(),
{
    let next = evicted(store, codecs);
    if overflows(store) {
        assert forall|l: int|
            #![trigger next.cold_kv->0[l]]
            #![trigger next.cold->0[l]]
            0 <= l < next.stored.len() implies next.cold_kv->0[l] == next.cold->0[l].rows.len()
            && next.cold->0[l].n_positions == next.cold->0[l].rows.len() by {
            assert(store.cold_rows(l).len() + overflow_of(store.stored[l].len(), store.max_window)
                <= usize::MAX);
        }
    }
}

/// Eviction loses, repeats and reorders no row: where all layers hold as many, each layer's cold
/// rows followed by its hot rows are what they were before.
pub proof fn law_eviction_keeps_rows<R, C>(store: StoreView<R, C>, codecs: Seq<C>, l: int)
    requires
        store.even(),
        0 <= l < store.stored.len(),
    ensures
        evicted(store, codecs).layer_rows(l) == store.layer_rows(l),
{
    let count = overflow_of(store.stored[l].len(), store.max_window) as int;
    assert(store.stored[l].len() == store.stored[0].len());
    assert(store.stored[l].take(count) + store.stored[l].skip(count) =~= store.stored[l]);
    assert(evicted(store, codecs).layer_rows(l) =~= store.layer_rows(l));
}

/// Eviction leaves no more rows in the hot tier than the window holds, and as many in each layer.
pub proof fn law_hot_rows_fit_the_window<R, C>(store: StoreView<R, C>, codecs: Seq<C>, l: int)
    requires
        0 <= l < store.stored.len(),
    ensures
        store.max_window matches Some(bound) ==> evicted(store, codecs).stored[l].len() <= bound,
        store.even() ==> evicted(store, codecs).even(),
{
    let next = evicted(store, codecs);
    if store.even() {
        assert forall|k: int| 0 <= k < next.stored.len() implies (#[trigger] next.stored[k]).len()
            == next.stored[0].len() by {
            assert(store.stored[k].len() == store.stored[0].len());
        }
    }
}

/// A layer of the cold tier gets the policy's codec for it when the tier is made, and keeps it.
pub proof fn law_layers_keep_their_codecs<R, C>(store: StoreView<R, C>, codecs: Seq<C>, l: int)
    requires
        store.wf(),
        0 <= l < store.stored.len(),
    ensures
        evicted(store, codecs).cold matches Some(layers) ==> layers[l].codec == match store.cold {
            Some(before) => before[l].codec,
            None => codecs[l],
        },
        cold_move(store, codecs) matches Some(write) ==> write.codecs[l] == evicted(
            store,
            codecs,
        ).cold->0[l].codec,
{
}

/// After a prefill whose dump has a row per layer and token, each layer's cold rows followed by its
/// hot rows are the rows that were dumped for it, and the whole prompt is accounted for. There is a
/// cold tier, starting at position zero, exactly where the window is shorter than the prompt.
pub proof fn law_prefill_holds_the_dumped_rows<R, C>(
    rows: Seq<Seq<R>>,
    prompt_len: usize,
    window: Option<usize>,
    entries: Seq<C>,
    codecs: Seq<C>,
    l: int,
)
    requires
        forall|k: int| 0 <= k < rows.len() ==> (#[trigger] rows[k]).len() == prompt_len,
        0 <= l < rows.len(),
    ensures
        ({
            let fresh = prefilled(rows, prompt_len, window, entries);
            let store = evicted(fresh, codecs);
            &&& store.layer_rows(l) == rows[l]
            &&& accounts_for_all(store)
            &&& store.wf()
            &&& store.even()
            &&& store.cold is Some <==> (window matches Some(bound) && bound < prompt_len)
            &&& cold_move(fresh, codecs) matches Some(write) ==> write.create && write.abs_position
                == 0
        }),
{
    let fresh = prefilled(rows, prompt_len, window, entries);
    assert(fresh.even());
    assert(has_room(fresh));
    assert(fresh.layer_rows(l) =~= rows[l]);
    law_eviction_keeps_rows(fresh, codecs, l);
    law_cold_keys_go_with_cold_rows(fresh, codecs);
    law_hot_rows_fit_the_window(fresh, codecs, l);
    lemma_eviction_keeps_account(fresh, codecs);
}

/// Eviction keeps the account.
proof fn lemma_eviction_keeps_account<R, C>(store: StoreView<R, C>, codecs: Seq<C>)
    requires
        store.even(),
        accounts_for_all(store),
    ensures
        accounts_for_all(evicted(store, codecs)),
{
    let next = evicted(store, codecs);
    assert forall|l: int| 0 <= l < next.stored.len() implies next.cold_abs_start
        + next.cold_rows(l).len() + (#[trigger] next.stored[l]).len() == next.next_position by {
        law_eviction_keeps_rows(store, codecs, l);
        assert(store.cold_abs_start + store.cold_rows(l).len() + store.stored[l].len()
            == store.next_position);
        assert(next.layer_rows(l).len() == store.layer_rows(l).len());
    }
}

/// Decode steps run at consecutive positions, whatever they dump: the request of step `i` is made
/// at the position `i` behind that of the first.
pub proof fn law_steps_run_at_consecutive_positions<R, C>(
    store: StoreView<R, C>,
    steps: Seq<Seq<R>>,
    codecs: Seq<C>,
    i: int,
)
    requires
        0 <= i <= steps.len(),
    ensures
        after_steps(store, steps.take(i), codecs).next_position == store.next_position + i,
    decreases i,
{
    if i > 0 {
        law_steps_run_at_consecutive_positions(store, steps, codecs, i - 1);
        assert(steps.take(i).drop_last() =~= steps.take(i - 1));
    }
}

/// A decode step as it went: the store before it, the request, what the backend left, the result.
pub struct StepRecord<H, R, C> {
    /// The store before the step.
    pub store: RsStorePerLayer<R, C>,
    /// The token.
    pub token_id: u32,
    /// What the backend was asked for.
    pub request: DecodeRequest,
    /// What it left.
    pub run: Option<DecodeRun<H, R>>,
    /// What came of it.
    pub result: Option<Decoded<H, R, C>>,
}

/// Successful steps, each on the store that the one before it left.
pub open spec fn in_sequence<H, R, C>(steps: Seq<StepRecord<H, R, C>>, codecs: Seq<C>) -> bool {
    &&& forall|i: int|
        0 <= i < steps.len() ==> {
            let step = #[trigger] steps[i];
            &&& is_request(step.request, step.store@, step.token_id)
            &&& is_step(step.store@, step.run, codecs, step.result)
            &&& step.result is Some
        }
    &&& forall|i: int, j: int|
        0 <= i && j == i + 1 && j < steps.len() ==> #[trigger] steps[j].store == (
        #[trigger] steps[i]).result->0.store
}

/// Successful decode steps run at consecutive positions: where the first asks for its token at
/// position p, step `i` asks for its own at p + i, gives the backend's hidden state, and leaves
/// p + i + 1 as the next position.
pub proof fn law_successful_steps_run_at_consecutive_positions<H, R, C>(
    steps: Seq<StepRecord<H, R, C>>,
    codecs: Seq<C>,
    i: int,
)
    requires
        in_sequence(steps, codecs),
        0 <= i < steps.len(),
    ensures
        steps[i].request.token_id == steps[i].token_id,
        steps[i].request.abs_position == steps[0].store@.next_position + i,
        steps[i].run matches Some(ran) && ran.dump.complete && steps[i].result->0.hidden
            == ran.hidden,
        steps[i].result->0.store@.next_position == steps[0].store@.next_position + i + 1,
    decreases i,
{
    if i > 0 {
        law_successful_steps_run_at_consecutive_positions(steps, codecs, i - 1);
        assert(steps[i].store == steps[i - 1].result->0.store);
    }
}

/// Decode steps leave window, policy and the start of the cold tier as they are, and every layer
/// where it was.
pub proof fn law_steps_keep_settings<R, C>(
    store: StoreView<R, C>,
    steps: Seq<Seq<R>>,
    codecs: Seq<C>,
)
    ensures
        after_steps(store, steps, codecs).max_window == store.max_window,
        after_steps(store, steps, codecs).policy_codecs == store.policy_codecs,
        after_steps(store, steps, codecs).cold_abs_start == store.cold_abs_start,
        after_steps(store, steps, codecs).stored.len() == store.stored.len(),
    decreases steps.len(),
{
    if steps.len() > 0 {
        law_steps_keep_settings(store, steps.drop_last(), codecs);
    }
}

/// Over any number of decode steps no row is lost, repeated or reordered: each layer's cold rows
/// followed by its hot rows are those from before, followed by the rows that the steps dumped for
/// it. The layers stay alike, and all positions stay accounted for.
pub proof fn law_steps_keep_rows_in_order<R, C>(
    store: StoreView<R, C>,
    steps: Seq<Seq<R>>,
    codecs: Seq<C>,
    l: int,
)
    requires
        store.even(),
        0 <= l < store.stored.len(),
    ensures
        after_steps(store, steps, codecs).even(),
        after_steps(store, steps, codecs).layer_rows(l) == store.layer_rows(l) + dumped_rows(
            steps,
            l,
        ),
        accounts_for_all(store) ==> accounts_for_all(after_steps(store, steps, codecs)),
    decreases steps.len(),
{
    if steps.len() > 0 {
        let before = steps.drop_last();
        law_steps_keep_rows_in_order(store, before, codecs, l);
        law_steps_keep_settings(store, before, codecs);
        let here = after_steps(store, before, codecs);
        let more = appended(here, steps.last());
        assert forall|k: int| 0 <= k < more.stored.len() implies (#[trigger] more.stored[k]).len()
            == more.stored[0].len() by {
            assert(here.stored[k].len() == here.stored[0].len());
        }
        law_hot_rows_fit_the_window(more, codecs, l);
        law_eviction_keeps_rows(more, codecs, l);
        assert(more.layer_rows(l) =~= here.layer_rows(l).push(steps.last()[l]));
        assert(store.layer_rows(l) + dumped_rows(steps, l) =~= (store.layer_rows(l) + dumped_rows(
            before,
            l,
        )).push(steps.last()[l]));
        if accounts_for_all(store) {
            assert forall|k: int| 0 <= k < more.stored.len() implies more.cold_abs_start
                + more.cold_rows(k).len() + (#[trigger] more.stored[k]).len()
                == more.next_position by {
                assert(here.cold_abs_start + here.cold_rows(k).len() + here.stored[k].len()
                    == here.next_position);
            }
            lemma_eviction_keeps_account(more, codecs);
        }
    } else {
        assert(store.layer_rows(l) + dumped_rows(steps, l) =~= store.layer_rows(l));
    }
}

/// Moves to the cold tier join up: each starts at the position behind what the tier holds, which is
/// that of the oldest hot row.
pub proof fn law_cold_writes_join_up<R, C>(store: StoreView<R, C>, codecs: Seq<C>, l: int)
    requires
        store.even(),
        accounts_for_all(store),
        cold_move(store, codecs) is Some,
        0 <= l < store.stored.len(),
    ensures
        cold_move(store, codecs)->0.abs_position == store.cold_abs_start + store.cold_rows(
            l,
        ).len(),
        cold_move(store, codecs)->0.abs_position == store.next_position - store.stored[l].len(),
{
    assert(store.stored[l].len() == store.stored[0].len());
}

// ── What eviction, prefill and decode leave, of what was there ──────────────

/// A store is seen as it is: every row, count, codec and position is that of its field.
pub proof fn law_stores_are_seen_as_they_are<R, C>(store: RsStorePerLayer<R, C>, l: int)
    requires
        0 <= l < store.stored@.len(),
    ensures
        store@.stored.len() == store.stored@.len(),
        store@.stored[l] == store.stored@[l]@,
        store@.cold is Some <==> store.cold_encoded is Some,
        store.cold_encoded matches Some(layers) ==> {
            &&& store@.cold->0.len() == layers@.len()
            &&& l < layers@.len() ==> store@.cold->0[l].codec == layers@[l].codec
            &&& l < layers@.len() ==> store@.cold->0[l].n_positions == layers@[l].n_positions
            &&& l < layers@.len() ==> store@.cold->0[l].rows == layers@[l].rows@
        },
        store@.cold_kv is Some <==> store.cold_kv is Some,
        store.cold_kv matches Some(counts) ==> store@.cold_kv->0 == counts@,
        store@.cold_abs_start == store.cold_abs_start,
        store@.next_position == store.next_position,
        store@.max_window == store.max_window,
        store@.policy_codecs == store.policy_codecs@,
{
}

/// An eviction leaves each layer its latest rows, as many as the window holds: all of them where
/// there is no window or they fit. Layers, positions, window and policy stay.
pub proof fn law_hot_tier_keeps_the_latest_rows<R, C>(
    store: StoreView<R, C>,
    codecs: Seq<C>,
    l: int,
)
    requires
        0 <= l < store.stored.len(),
    ensures
        ({
            let after = evicted(store, codecs);
            let held = store.stored[l];
            let kept = after.stored[l];
            &&& after.stored.len() == store.stored.len()
            &&& store.max_window is None ==> kept == held
            &&& store.max_window matches Some(window) ==> {
                &&& kept.len() == (if held.len() < window { held.len() } else { window as nat })
                &&& forall|i: int|
                    0 <= i < kept.len() ==> #[trigger] kept[i] == held[held.len() - kept.len() + i]
            }
            &&& after.cold_abs_start == store.cold_abs_start
            &&& after.next_position == store.next_position
            &&& after.max_window == store.max_window
            &&& after.policy_codecs == store.policy_codecs
        }),
{
    let held = store.stored[l];
    let kept = evicted(store, codecs).stored[l];
    if store.max_window is None {
        assert(kept =~= held);
    }
}

/// What [`clip_overflow`] keeps are each layer's latest rows, as many as the window holds, and what
/// it takes are those before them.
pub proof fn law_clipping_splits_at_the_window<R>(
    stored: Seq<Vec<R>>,
    window: Option<usize>,
    kept: Seq<Vec<R>>,
    taken: Seq<Vec<R>>,
    l: int,
)
    requires
        rows_of(kept) == window_rows(rows_of(stored), window),
        rows_of(taken) == overflow_rows(rows_of(stored), window),
        0 <= l < stored.len(),
    ensures
        kept.len() == stored.len(),
        taken.len() == stored.len(),
        stored[l]@ == taken[l]@ + kept[l]@,
        window is None ==> taken[l]@.len() == 0,
        window matches Some(bound) ==> kept[l]@.len() <= bound,
        window matches Some(bound) ==> taken[l]@.len() > 0 ==> kept[l]@.len() == bound,
{
    assert(rows_of(kept).len() == kept.len());
    assert(rows_of(taken).len() == taken.len());
    assert(rows_of(stored)[l] == stored[l]@);
    assert(rows_of(kept)[l] == kept[l]@);
    assert(rows_of(taken)[l] == taken[l]@);
    assert(stored[l]@ =~= taken[l]@ + kept[l]@);
}

/// An eviction moves rows exactly where the first layer holds more than the window. Each layer's
/// rows before its latest go behind its cold rows; they are counted and have keys and values, and
/// the codec is the one that the layer has, or the policy's where the tier is made. Otherwise the
/// cold tier stays.
pub proof fn law_cold_tier_takes_the_oldest_rows<R, C>(
    store: StoreView<R, C>,
    codecs: Seq<C>,
    l: int,
    count: int,
)
    requires
        0 <= l < store.stored.len(),
        0 <= count <= store.stored[l].len(),
        store.max_window is None ==> count == 0,
        store.max_window matches Some(window) ==> store.stored[l].len() - count <= window,
        store.max_window matches Some(window) ==> count > 0 ==> store.stored[l].len() - count
            == window,
        (store.cold matches Some(layers) ==> layers[l].rows.len() + count <= usize::MAX),
        count <= usize::MAX,
    ensures
        ({
            let after = evicted(store, codecs);
            let moves = store.max_window matches Some(window) && store.stored[0].len() > window;
            let held = match store.cold {
                Some(layers) => layers[l].rows,
                None => Seq::empty(),
            };
            &&& !moves ==> after.cold == store.cold && after.cold_kv == store.cold_kv
            &&& moves ==> {
                &&& after.cold is Some
                &&& after.cold->0.len() == store.stored.len()
                &&& after.cold->0[l].rows == held + store.stored[l].take(count)
                &&& after.cold->0[l].n_positions == held.len() + count
                &&& store.cold matches Some(layers) ==> after.cold->0[l].codec == layers[l].codec
                &&& store.cold is None ==> after.cold->0[l].codec == codecs[l]
                &&& after.cold_kv is Some
                &&& after.cold_kv->0.len() == store.stored.len()
                &&& after.cold_kv->0[l] == held.len() + count
            }
        }),
{
    assert(overflow_of(store.stored[l].len(), store.max_window) == count);
}

/// What is handed on with an eviction: something exactly where rows are moved, and then, for every
/// layer, the rows that the cold tier takes with the codec that it has for them. Keys and values
/// are computed from behind the rows that the first layer holds cold, and encoders are made exactly
/// where there was no cold tier.
pub proof fn law_writes_are_the_rows_that_move<R, C>(
    store: StoreView<R, C>,
    codecs: Seq<C>,
    write: Option<ColdMove<R, C>>,
    l: int,
)
    requires
        is_move(write, cold_move(store, codecs)),
        0 <= l < store.stored.len(),
    ensures
        write is Some <==> (store.max_window matches Some(window) && store.stored[0].len()
            > window),
        write matches Some(made) ==> {
            let after = evicted(store, codecs);
            &&& made.create <==> store.cold is None
            &&& store.cold is None ==> made.abs_position == store.cold_abs_start
            &&& store.cold matches Some(layers) ==> made.abs_position == store.cold_abs_start
                + layers[0].rows.len()
            &&& made.rows@.len() == store.stored.len()
            &&& made.rows@[l]@ + after.stored[l] == store.stored[l]
            &&& made.codecs@.len() == store.stored.len()
            &&& store.cold matches Some(layers) ==> made.codecs@[l] == layers[l].codec
            &&& store.cold is None ==> made.codecs@[l] == codecs[l]
        },
{
    if let Some(made) = write {
        let after = evicted(store, codecs);
        assert(made@.rows.len() == made.rows@.len());
        assert(made@.rows[l] == made.rows@[l]@);
        assert(made.rows@[l]@ + after.stored[l] =~= store.stored[l]);
        assert(made@.codecs == made.codecs@);
    }
}

/// An eviction has the room and the codecs that it needs wherever the rows of each layer can be
/// counted and the policy has a codec for each.
pub proof fn law_countable_rows_can_be_moved<R, C>(store: StoreView<R, C>, codecs: Seq<C>)
    requires
        forall|l: int|
            0 <= l < store.stored.len() ==> (#[trigger] store.stored[l]).len()
                + store.cold_abs_start + (match store.cold {
                Some(layers) => layers[l].rows.len(),
                None => 0,
            }) <= usize::MAX,
    ensures
        has_room(store),
        codecs.len() >= store.stored.len() ==> has_codecs(store, codecs),
        store.cold is Some ==> has_codecs(store, codecs),
        store.max_window is None ==> has_codecs(store, codecs),
{
    if store.stored.len() > 0 {
        assert(store.stored[0].len() >= 0);
    }
}

/// A prefill gives something exactly where the dispatch is supported and the backend dumped every
/// layer: its hidden state and handle, and a store that starts at position zero, expects the next
/// token behind the prompt, and keeps each layer's latest dumped rows hot, as many as the window
/// holds; the others are handed on for new encoders.
pub proof fn law_prefill_keeps_what_was_dumped<H, K, R, C>(
    supported: bool,
    run: Option<PrefillRun<H, K, R>>,
    prompt_len: usize,
    window: Option<usize>,
    entries: Seq<C>,
    codecs: Seq<C>,
    result: Option<Prefilled<H, K, R, C>>,
    l: int,
)
    requires
        is_prefill(supported, run, prompt_len, window, entries, codecs, result),
    ensures
        result is None <==> !supported || run is None || !run->0.dump.complete,
        result matches Some(made) ==> {
            let rows = run->0.dump.rows@;
            let store = made.store;
            &&& made.hidden == run->0.hidden
            &&& made.handle == run->0.handle
            &&& store.cold_abs_start == 0
            &&& store.next_position == prompt_len
            &&& store.max_window == window
            &&& store.policy_codecs@ == entries
            &&& store.stored@.len() == rows.len()
            &&& 0 <= l < rows.len() ==> {
                let moves = window matches Some(bound) && rows[0]@.len() > bound;
                &&& window is None ==> store.stored@[l]@ == rows[l]@
                &&& window matches Some(bound) ==> {
                    &&& store.stored@[l]@.len() == (if rows[l]@.len() < bound {
                        rows[l]@.len()
                    } else {
                        bound as nat
                    })
                    &&& store.stored@[l]@ == rows[l]@.skip(
                        rows[l]@.len() - store.stored@[l]@.len(),
                    )
                }
                &&& store.cold_encoded is Some <==> moves
                &&& made.write is Some <==> moves
                &&& store.cold_encoded matches Some(cold) ==> cold@[l].rows@ + store.stored@[l]@
                    == rows[l]@ && cold@[l].n_positions == rows[l]@.len() - store.stored@[l]@.len()
                    && cold@[l].codec == codecs[l]
                &&& store.cold_kv is Some <==> moves
                &&& store.cold_kv matches Some(counts) ==> counts@[l] == rows[l]@.len()
                    - store.stored@[l]@.len()
                &&& made.write matches Some(write) ==> write.create && write.abs_position == 0
                    && write.rows@[l]@ + store.stored@[l]@ == rows[l]@ && write.codecs@[l]
                    == codecs[l]
            }
        },
{
    if let Some(made) = result {
        let rows = run->0.dump.rows@;
        let store = made.store;
        let fresh = prefilled(rows_of(rows), prompt_len, window, entries);
        assert(store@.stored.len() == store.stored@.len());
        assert(fresh.stored.len() == rows.len());
        if 0 <= l < rows.len() {
            let count = rows[l]@.len() - store.stored@[l]@.len();
            assert(fresh.stored[l] == rows[l]@);
            assert(fresh.stored[0] == rows[0]@);
            assert(rows[l].len() == rows[l]@.len());
            law_stores_are_seen_as_they_are(store, l);
            law_hot_tier_keeps_the_latest_rows(fresh, codecs, l);
            law_cold_tier_takes_the_oldest_rows(fresh, codecs, l, count);
            law_writes_are_the_rows_that_move(fresh, codecs, made.write, l);
            if window is Some {
                assert(store.stored@[l]@ =~= rows[l]@.skip(count));
            }
            if let Some(cold) = store.cold_encoded {
                assert(cold@.len() == rows.len());
                assert(cold@[l].rows@ =~= rows[l]@.take(count));
                assert(cold@[l].rows@ + store.stored@[l]@ =~= rows[l]@);
            }
        }
    }
}

/// A decode step gives something exactly where the backend ran and dumped every layer: its hidden
/// state, and the store with the next position one further and, in each layer, the row that was
/// dumped for it behind those that were hot, of which the latest stay, as many as the window holds.
pub proof fn law_decode_appends_what_was_dumped<H, R, C>(
    store: RsStorePerLayer<R, C>,
    run: Option<DecodeRun<H, R>>,
    codecs: Seq<C>,
    result: Option<Decoded<H, R, C>>,
    l: int,
)
    requires
        is_step(store@, run, codecs, result),
    ensures
        result is None <==> run is None || !run->0.dump.complete,
        result matches Some(made) ==> {
            let after = made.store;
            &&& made.hidden == run->0.hidden
            &&& after.cold_abs_start == store.cold_abs_start
            &&& after.next_position == store.next_position + 1
            &&& after.max_window == store.max_window
            &&& after.policy_codecs@ == store.policy_codecs@
            &&& after.stored@.len() == store.stored@.len()
            &&& 0 <= l < store.stored@.len() == run->0.dump.rows@.len() ==> {
                let rows = store.stored@[l]@.push(run->0.dump.rows@[l]@[0]);
                let moves = store.max_window matches Some(window) && store.stored@[0]@.len()
                    >= window;
                &&& store.max_window is None ==> after.stored@[l]@ == rows
                &&& store.max_window matches Some(window) ==> {
                    &&& after.stored@[l]@.len() == (if rows.len() < window {
                        rows.len()
                    } else {
                        window as nat
                    })
                    &&& after.stored@[l]@ == rows.skip(rows.len() - after.stored@[l]@.len())
                }
                &&& made.write is Some <==> moves
                &&& made.write matches Some(write) ==> {
                    &&& write.rows@[l]@ + after.stored@[l]@ == rows
                    &&& write.create <==> store.cold_encoded is None
                    &&& store.cold_encoded is None ==> write.abs_position == store.cold_abs_start
                        && write.codecs@[l] == codecs[l]
                }
            }
        },
{
    if let Some(made) = result {
        let after = made.store;
        let dumped = first_rows(rows_of(run->0.dump.rows@));
        let more = appended(store@, dumped);
        assert(store@.stored.len() == store.stored@.len());
        assert(after@.stored.len() == after.stored@.len());
        assert(more.stored.len() == store.stored@.len());
        if 0 <= l < store.stored@.len() == run->0.dump.rows@.len() {
            let rows = store.stored@[l]@.push(run->0.dump.rows@[l]@[0]);
            assert(dumped[l] == run->0.dump.rows@[l]@[0]);
            assert(more.stored[l] == rows);
            assert(more.stored[0].len() == store.stored@[0]@.len() + 1);
            law_stores_are_seen_as_they_are(store, l);
            law_stores_are_seen_as_they_are(after, l);
            law_hot_tier_keeps_the_latest_rows(more, codecs, l);
            law_writes_are_the_rows_that_move(more, codecs, made.write, l);
            if store.max_window is Some {
                assert(after.stored@[l]@ =~= rows.skip(rows.len() - after.stored@[l]@.len()));
            }
        }
    }
}

/// Where a decode step follows on a cold tier, what it hands on goes behind the rows that the tier
/// holds, under the codec that each layer has, and the tier then holds both, counted and with keys
/// and values; where it moves nothing, the tier stays.
pub proof fn law_decode_extends_the_cold_tier<H, R, C>(
    store: RsStorePerLayer<R, C>,
    run: Option<DecodeRun<H, R>>,
    codecs: Seq<C>,
    result: Option<Decoded<H, R, C>>,
    l: int,
)
    requires
        is_step(store@, run, codecs, result),
        result is Some,
        store@.wf(),
        store.cold_encoded is Some,
        0 <= l < store.stored@.len() == run->0.dump.rows@.len(),
    ensures
        ({
            let before = store.cold_encoded->0@;
            let after = result->0.store.cold_encoded->0@;
            let counts = result->0.store.cold_kv->0@;
            &&& result->0.store.cold_encoded is Some
            &&& result->0.store.cold_kv is Some
            &&& after.len() == before.len() == counts.len()
            &&& after[l].codec == before[l].codec
            &&& after[l].n_positions == after[l].rows@.len() == counts[l]
            &&& result->0.write is None ==> after[l].rows@ == before[l].rows@
            &&& result->0.write matches Some(write) ==> {
                &&& !write.create
                &&& write.abs_position == store.cold_abs_start + before[0].rows@.len()
                &&& write.codecs@[l] == before[l].codec
                &&& after[l].rows@ == before[l].rows@ + write.rows@[l]@
            }
        }),
{
    let made = result->0;
    let dumped = first_rows(rows_of(run->0.dump.rows@));
    let more = appended(store@, dumped);
    law_stores_are_seen_as_they_are(store, l);
    law_stores_are_seen_as_they_are(store, 0);
    assert(more.stored.len() == store.stored@.len());
    assert(made.store@.stored.len() == made.store.stored@.len());
    law_stores_are_seen_as_they_are(made.store, l);
    law_writes_are_the_rows_that_move(more, codecs, made.write, l);
    assert(store@.cold->0[l].rows.len() == store@.cold_kv->0[l]);
    assert(made.store@.cold->0[l].n_positions == made.store@.cold->0[l].rows.len());
    if let Some(write) = made.write {
        let rows = more.stored[l];
        assert(write@.rows[l] == write.rows@[l]@);
        assert(made.store@.cold->0[l].rows =~= store@.cold->0[l].rows + write.rows@[l]@);
    }
}

/// A request is for the token that was asked for, at the store's next position.
pub proof fn law_requests_are_for_the_next_position<R, C>(
    request: DecodeRequest,
    store: RsStorePerLayer<R, C>,
    token_id: u32,
)
    requires
        is_request(request, store@, token_id),
    ensures
        request.token_id == token_id,
        request.abs_position == store.next_position,
{
}

/// Where a decode step makes the cold tier, each layer of it holds the rows that are handed on for
/// it, counted and with keys and values, under the policy's codec; where it moves nothing, there is
/// still no cold tier.
pub proof fn law_decode_makes_the_cold_tier<H, R, C>(
    store: RsStorePerLayer<R, C>,
    run: Option<DecodeRun<H, R>>,
    codecs: Seq<C>,
    result: Option<Decoded<H, R, C>>,
    l: int,
)
    requires
        is_step(store@, run, codecs, result),
        result is Some,
        store.cold_encoded is None,
        store.cold_kv is None,
        0 <= l < store.stored@.len() == run->0.dump.rows@.len(),
    ensures
        ({
            let after = result->0.store;
            &&& result->0.write is None ==> after.cold_encoded is None && after.cold_kv is None
            &&& result->0.write matches Some(write) ==> {
                &&& after.cold_encoded is Some
                &&& after.cold_kv is Some
                &&& after.cold_encoded->0@.len() == store.stored@.len()
                &&& after.cold_kv->0@.len() == store.stored@.len()
                &&& after.cold_encoded->0@[l].rows@ == write.rows@[l]@
                &&& after.cold_encoded->0@[l].n_positions == write.rows@[l]@.len()
                &&& after.cold_encoded->0@[l].codec == codecs[l]
                &&& after.cold_kv->0@[l] == write.rows@[l]@.len()
            }
        }),
{
    let made = result->0;
    let dumped = first_rows(rows_of(run->0.dump.rows@));
    let more = appended(store@, dumped);
    law_stores_are_seen_as_they_are(store, l);
    assert(more.stored.len() == store.stored@.len());
    assert(made.store@.stored.len() == made.store.stored@.len());
    law_stores_are_seen_as_they_are(made.store, l);
    law_writes_are_the_rows_that_move(more, codecs, made.write, l);
    if let Some(write) = made.write {
        assert(write@.rows[l] == write.rows@[l]@);
        assert(made.store@.cold->0[l].rows =~= write.rows@[l]@);
        assert(made.store@.cold_kv->0[l] == made.store@.cold->0[l].rows.len());
    }
}

} // verus!

use vstd::prelude::*;

use crate::error::EngineError;
use crate::magnet::{
    btih_prefix, identifier_from_uri, lemma_magnet_names_identifier, lemma_no_btih, names_btih,
    parsed_uri, same_text, uri_identifier,
};
use crate::metadata::{
    conformant, decoded_torrent, files_total, hex_of, join_segments, lemma_multi_file_metadata,
    lemma_single_file_metadata, metadata_outcome, read_metadata, strings_view, FileModel, InfoModel,
    TorrentInfo,
};
use crate::nesting::nesting_within_limit;

verus! {

/// Progress is counted in hundredths: this value means complete.
pub const PROGRESS_SCALE: u32 = 100;

/// How far one reporter tick advances an active torrent's progress.
pub const PROGRESS_STEP: u32 = 1;

/// The simulated download rate grows by this much per tick, modulo
/// `DOWNLOAD_RATE_CAP`.
pub const DOWNLOAD_RATE_STEP: u64 = 1024;

pub const DOWNLOAD_RATE_CAP: u64 = 1048576;

/// The simulated upload rate grows by this much per tick, modulo
/// `UPLOAD_RATE_CAP`.
pub const UPLOAD_RATE_STEP: u64 = 512;

pub const UPLOAD_RATE_CAP: u64 = 524288;

/// Peer and seed counts cycle through `1..=PEER_CYCLE` and `1..=SEED_CYCLE`.
pub const PEER_CYCLE: u32 = 50;

pub const SEED_CYCLE: u32 = 20;

/// Transfer statistics of one torrent. `progress` is in hundredths, from 0
/// to `PROGRESS_SCALE`.
#[derive(Debug, Clone, Copy, PartialEq, Eq, Structural)]
pub struct TorrentStats {
    pub downloaded: u64,
    pub uploaded: u64,
    pub download_rate: u64,
    pub upload_rate: u64,
    pub progress: u32,
    pub peers: u32,
    pub seeds: u32,
}

pub open spec fn zero_stats() -> TorrentStats {
    TorrentStats {
        downloaded: 0,
        uploaded: 0,
        download_rate: 0,
        upload_rate: 0,
        progress: 0,
        peers: 0,
        seeds: 0,
    }
}

/// Statistics that the reporter can advance without overflow.
pub open spec fn stats_in_range(s: TorrentStats) -> bool {
    &&& s.progress <= PROGRESS_SCALE
    &&& s.download_rate < DOWNLOAD_RATE_CAP
    &&& s.upload_rate < UPLOAD_RATE_CAP
}

/// `size * progress / PROGRESS_SCALE`, rounded to the nearest byte.
pub open spec fn downloaded_at(size: u64, progress: u32) -> u64 {
    ((size * progress + PROGRESS_SCALE / 2) / (PROGRESS_SCALE as int)) as u64
}

/// The statistics after one reporter tick of an active torrent of `size`
/// bytes.
pub open spec fn advanced_stats(s: TorrentStats, size: u64) -> TorrentStats {
    let p = if s.progress + PROGRESS_STEP >= PROGRESS_SCALE {
        PROGRESS_SCALE
    } else {
        (s.progress + PROGRESS_STEP) as u32
    };
    TorrentStats {
        downloaded: downloaded_at(size, p),
        uploaded: s.uploaded,
        download_rate: ((s.download_rate + DOWNLOAD_RATE_STEP) % (DOWNLOAD_RATE_CAP as int)) as u64,
        upload_rate: ((s.upload_rate + UPLOAD_RATE_STEP) % (UPLOAD_RATE_CAP as int)) as u64,
        progress: p,
        peers: (s.peers % PEER_CYCLE + 1) as u32,
        seeds: (s.seeds % SEED_CYCLE + 1) as u32,
    }
}

/// Events that the engine emits, in emission order.
#[derive(Debug)]
pub enum TorrentEvent {
    Added(String, TorrentInfo),
    Progress(String, TorrentStats),
    Completed(String),
    Error(String, String),
    Paused(String),
    Resumed(String),
}

pub enum EventModel {
    Added(Seq<char>, InfoModel),
    Progress(Seq<char>, TorrentStats),
    Completed(Seq<char>),
    Error(Seq<char>, Seq<char>),
    Paused(Seq<char>),
    Resumed(Seq<char>),
}

impl View for TorrentEvent {
    type V = EventModel;

    open spec fn view(&self) -> EventModel {
        match self {
            TorrentEvent::Added(id, info) => EventModel::Added(id@, info@),
            TorrentEvent::Progress(id, s) => EventModel::Progress(id@, *s),
            TorrentEvent::Completed(id) => EventModel::Completed(id@),
            TorrentEvent::Error(id, m) => EventModel::Error(id@, m@),
            TorrentEvent::Paused(id) => EventModel::Paused(id@),
            TorrentEvent::Resumed(id) => EventModel::Resumed(id@),
        }
    }
}

/// The runtime record of one admitted torrent.
#[derive(Debug)]
pub struct TorrentHandle {
    pub info: TorrentInfo,
    pub stats: TorrentStats,
    pub paused: bool,
}

pub struct HandleModel {
    pub info: InfoModel,
    pub stats: TorrentStats,
    pub paused: bool,
}

impl View for TorrentHandle {
    type V = HandleModel;

    open spec fn view(&self) -> HandleModel {
        HandleModel { info: self.info@, stats: self.stats, paused: self.paused }
    }
}

impl HandleModel {
    pub open spec fn id(self) -> Seq<char> {
        self.info.info_hash
    }

    /// The downloaded bytes are what the progress makes of the size.
    pub open spec fn downloaded_agrees(self) -> bool {
        self.stats.downloaded == downloaded_at(self.info.size, self.stats.progress)
    }

    /// The reporter advances this torrent: it is not paused and not complete.
    pub open spec fn is_active(self) -> bool {
        !self.paused && self.stats.progress < PROGRESS_SCALE
    }
}

/// A newly admitted torrent: zeroed statistics, not paused.
pub open spec fn fresh_handle(info: InfoModel) -> HandleModel {
    HandleModel { info, stats: zero_stats(), paused: false }
}

/// A handle after one reporter tick.
pub open spec fn advanced(h: HandleModel) -> HandleModel {
    if h.is_active() {
        HandleModel { stats: advanced_stats(h.stats, h.info.size), ..h }
    } else {
        h
    }
}

/// The events of one reporter tick for one handle: `Progress` where it is
/// active, then `Completed` where that tick made it complete.
pub open spec fn handle_tick_events(h: HandleModel) -> Seq<EventModel> {
    if h.is_active() {
        let s = advanced_stats(h.stats, h.info.size);
        if s.progress == PROGRESS_SCALE {
            seq![EventModel::Progress(h.id(), s), EventModel::Completed(h.id())]
        } else {
            seq![EventModel::Progress(h.id(), s)]
        }
    } else {
        Seq::empty()
    }
}

/// The events of one reporter tick over the handles in registry order.
pub open spec fn tick_events(hs: Seq<HandleModel>) -> Seq<EventModel>
    decreases hs.len(),
{
    if hs.len() == 0 {
        Seq::empty()
    } else {
        tick_events(hs.drop_last()) + handle_tick_events(hs.last())
    }
}

/// The engine: a registry of handles with at most one per identifier, and
/// the queue of events emitted and not yet taken by the consumer.
pub struct TorrentEngine {
    torrents: Vec<TorrentHandle>,
    events: Vec<TorrentEvent>,
    download_path: String,
    max_torrents: usize,
}

pub struct EngineModel {
    pub torrents: Seq<HandleModel>,
    pub events: Seq<EventModel>,
    pub download_path: Seq<char>,
    pub max_torrents: nat,
}

impl View for TorrentEngine {
    type V = EngineModel;

    closed spec fn view(&self) -> EngineModel {
        EngineModel {
            torrents: self.torrents@.map_values(|h: TorrentHandle| h@),
            events: self.events@.map_values(|e: TorrentEvent| e@),
            download_path: self.download_path@,
            max_torrents: self.max_torrents as nat,
        }
    }
}

impl EngineModel {
    pub open spec fn wf(self) -> bool {
        &&& forall|i: int, j: int|
            0 <= i < j < self.torrents.len() ==> #[trigger] self.torrents[i].id()
                != #[trigger] self.torrents[j].id()
        &&& forall|i: int| 0 <= i < self.torrents.len() ==> stats_in_range(#[trigger] self.torrents[i].stats)
        &&& forall|i: int| 0 <= i < self.torrents.len() ==> #[trigger] self.torrents[i].downloaded_agrees()
    }

    pub open spec fn has(self, id: Seq<char>) -> bool {
        exists|i: int| 0 <= i < self.torrents.len() && #[trigger] self.torrents[i].id() == id
    }

    /// The registry position of `id`, where it is registered.
    pub open spec fn position(self, id: Seq<char>) -> int {
        choose|i: int| 0 <= i < self.torrents.len() && #[trigger] self.torrents[i].id() == id
    }

    pub open spec fn with(self, torrents: Seq<HandleModel>, events: Seq<EventModel>) -> EngineModel {
        EngineModel { torrents, events, ..self }
    }
}

/// Admission of metadata `info`: rejected as a duplicate where its
/// identifier is registered, for capacity where the registry is full;
/// otherwise a fresh handle is appended and `Added` emitted.
pub open spec fn admission(m: EngineModel, info: InfoModel) -> (Result<Seq<char>, EngineError>, EngineModel) {
    if m.has(info.info_hash) {
        (Err(EngineError::DuplicateIdentifier), m)
    } else if m.torrents.len() >= m.max_torrents {
        (Err(EngineError::CapacityExceeded), m)
    } else {
        (
            Ok(info.info_hash),
            m.with(
                m.torrents.push(fresh_handle(info)),
                m.events.push(EventModel::Added(info.info_hash, info)),
            ),
        )
    }
}

/// The metadata of a torrent known only by identifier, until its metadata
/// is fetched: named after the identifier, with no files and size zero.
pub open spec fn placeholder_info(id: Seq<char>) -> InfoModel {
    InfoModel { name: id, size: 0, info_hash: id, announce_urls: Seq::empty(), files: Seq::empty() }
}

/// Admission by magnet URI.
pub open spec fn magnet_admission(m: EngineModel, uri: Seq<char>) -> (Result<Seq<char>, EngineError>, EngineModel) {
    match uri_identifier(uri) {
        Some(x) => admission(m, placeholder_info(x)),
        None => (Err(EngineError::InvalidIdentifier), m),
    }
}

/// Admission by metadata-file bytes.
pub open spec fn file_admission(m: EngineModel, bytes: Seq<u8>) -> (Result<Seq<char>, EngineError>, EngineModel) {
    match metadata_outcome(bytes) {
        Some(info) => admission(m, info),
        None => (Err(EngineError::MalformedMetadata), m),
    }
}

/// Pausing (`flag` true) or resuming (`flag` false) `id`: the flag is set
/// and `Paused` or `Resumed` emitted, also where it was already so;
/// `NotFound` where `id` is not registered.
pub open spec fn pause_transition(m: EngineModel, id: Seq<char>, flag: bool) -> (Result<(), EngineError>, EngineModel) {
    if m.has(id) {
        let i = m.position(id);
        (
            Ok(()),
            m.with(
                m.torrents.update(i, HandleModel { paused: flag, ..m.torrents[i] }),
                m.events.push(if flag { EventModel::Paused(id) } else { EventModel::Resumed(id) }),
            ),
        )
    } else {
        (Err(EngineError::NotFound), m)
    }
}

/// Removing `id`: its handle leaves the registry, no event is emitted;
/// `NotFound` where `id` is not registered.
pub open spec fn removal(m: EngineModel, id: Seq<char>) -> (Result<(), EngineError>, EngineModel) {
    if m.has(id) {
        (Ok(()), m.with(m.torrents.remove(m.position(id)), m.events))
    } else {
        (Err(EngineError::NotFound), m)
    }
}

/// One reporter tick: every active handle advances, in registry order, and
/// emits its events.
pub open spec fn tick_transition(m: EngineModel) -> EngineModel {
    m.with(m.torrents.map_values(|h: HandleModel| advanced(h)), m.events + tick_events(m.torrents))
}

pub open spec fn id_result(r: Result<String, EngineError>) -> Result<Seq<char>, EngineError> {
    match r {
        Ok(s) => Ok(s@),
        Err(e) => Err(e),
    }
}


proof fn lemma_unique_position(m: EngineModel, id: Seq<char>, i: int)
    requires
        m.wf(),
        0 <= i < m.torrents.len(),
        m.torrents[i].id() == id,
    ensures
        m.has(id),
        m.position(id) == i,
{
    assert(m.torrents[i].id() == id);
    let j = m.position(id);
    if j != i {
        if j < i {
            assert(m.torrents[j].id() != m.torrents[i].id());
        } else {
            assert(m.torrents[i].id() != m.torrents[j].id());
        }
    }
}

/// A well-formed magnet URI whose first identifying query pair is
/// `xt=urn:btih:X`, added where `X` is not registered and there is room,
/// yields `X` and emits `Added` for `X`.
pub proof fn lemma_magnet_yields_identifier(m: EngineModel, s: Seq<char>, i: int, x: Seq<char>)
    requires
        m.wf(),
        !m.has(x),
        m.torrents.len() < m.max_torrents,
        parsed_uri(s) is Some,
        parsed_uri(s)->Some_0.scheme@ == "magnet"@,
        0 <= i < parsed_uri(s)->Some_0.query@.len(),
        parsed_uri(s)->Some_0.query@[i].0@ == "xt"@,
        parsed_uri(s)->Some_0.query@[i].1@ == btih_prefix() + x,
        forall|j: int|
            0 <= j < i ==> !names_btih(
                #[trigger] parsed_uri(s)->Some_0.query@[j].0@,
                parsed_uri(s)->Some_0.query@[j].1@,
            ),
    ensures
        magnet_admission(m, s).0 == Ok::<Seq<char>, EngineError>(x),
        magnet_admission(m, s).1.events == m.events.push(EventModel::Added(x, placeholder_info(x))),
        magnet_admission(m, s).1.has(x),
        magnet_admission(m, s).1.torrents[m.torrents.len() as int].info == placeholder_info(x),
{
    lemma_magnet_names_identifier(s, i, x);
    let n = magnet_admission(m, s).1;
    assert(n.torrents[m.torrents.len() as int].id() == x);
}

/// Adding valid single-file metadata bytes, where their identifier is not
/// registered and there is room, succeeds with the hex digest of the info
/// dictionary as identifier, on any such engine alike; the registered
/// metadata has the file's length as size and that one file as its files,
/// and `Added` is emitted with it.
pub proof fn lemma_single_file_admission(m1: EngineModel, m2: EngineModel, b: Seq<u8>)
    requires
        m1.wf(),
        m2.wf(),
        nesting_within_limit(b),
        decoded_torrent(b) is Some,
        decoded_torrent(b)->Some_0.files is None,
        conformant(decoded_torrent(b)->Some_0),
        !m1.has(hex_of(decoded_torrent(b)->Some_0.info_hash@)),
        !m2.has(hex_of(decoded_torrent(b)->Some_0.info_hash@)),
        m1.torrents.len() < m1.max_torrents,
        m2.torrents.len() < m2.max_torrents,
    ensures
        file_admission(m1, b).0 == Ok::<Seq<char>, EngineError>(
            hex_of(decoded_torrent(b)->Some_0.info_hash@),
        ),
        file_admission(m2, b).0 == file_admission(m1, b).0,
        file_admission(m1, b).1.torrents[m1.torrents.len() as int].info.size == decoded_torrent(
            b,
        )->Some_0.length,
        file_admission(m1, b).1.torrents[m1.torrents.len() as int].info.files == seq![
            FileModel {
                path: decoded_torrent(b)->Some_0.name@,
                size: decoded_torrent(b)->Some_0.length as u64,
            },
        ],
        file_admission(m1, b).1.events == m1.events.push(
            EventModel::Added(
                hex_of(decoded_torrent(b)->Some_0.info_hash@),
                file_admission(m1, b).1.torrents[m1.torrents.len() as int].info,
            ),
        ),
{
    lemma_single_file_metadata(b, b);
}

/// Adding valid multi-file metadata bytes, where their identifier is not
/// registered and there is room, succeeds and registers metadata whose
/// files are the listed ones in input order, each path its segments joined
/// with `/`, and whose size is the sum of the file sizes.
pub proof fn lemma_multi_file_admission(m: EngineModel, b: Seq<u8>)
    requires
        m.wf(),
        nesting_within_limit(b),
        decoded_torrent(b) is Some,
        decoded_torrent(b)->Some_0.files is Some,
        conformant(decoded_torrent(b)->Some_0),
        !m.has(hex_of(decoded_torrent(b)->Some_0.info_hash@)),
        m.torrents.len() < m.max_torrents,
    ensures
        file_admission(m, b).0 == Ok::<Seq<char>, EngineError>(
            hex_of(decoded_torrent(b)->Some_0.info_hash@),
        ),
        file_admission(m, b).1.torrents[m.torrents.len() as int].info.size == files_total(
            file_admission(m, b).1.torrents[m.torrents.len() as int].info.files,
        ),
        file_admission(m, b).1.torrents[m.torrents.len() as int].info.files.len()
            == decoded_torrent(b)->Some_0.files->Some_0@.len(),
        forall|i: int|
            0 <= i < decoded_torrent(b)->Some_0.files->Some_0@.len() ==> file_admission(
                m,
                b,
            ).1.torrents[m.torrents.len() as int].info.files[i] == (FileModel {
                path: join_segments(strings_view(decoded_torrent(b)->Some_0.files->Some_0@[i].path@)),
                size: decoded_torrent(b)->Some_0.files->Some_0@[i].length as u64,
            }),
{
    lemma_multi_file_metadata(b);
}

/// A magnet URI that does not parse, has another scheme, or has no
/// `xt=urn:btih:` parameter fails with `InvalidIdentifier` and leaves the
/// engine as it was.
pub proof fn lemma_malformed_magnet_rejected(m: EngineModel, s: Seq<char>)
    requires
        parsed_uri(s) is None || parsed_uri(s)->Some_0.scheme@ != "magnet"@ || forall|j: int|
            0 <= j < parsed_uri(s)->Some_0.query@.len() ==> !names_btih(
                #[trigger] parsed_uri(s)->Some_0.query@[j].0@,
                parsed_uri(s)->Some_0.query@[j].1@,
            ),
    ensures
        magnet_admission(m, s) == (Err::<Seq<char>, EngineError>(EngineError::InvalidIdentifier), m),
{
    if parsed_uri(s) is Some && parsed_uri(s)->Some_0.scheme@ == "magnet"@ {
        lemma_no_btih(parsed_uri(s)->Some_0.query@);
    }
}

/// Pausing a registered, unpaused torrent and then resuming it restores the
/// registry, statistics included, and emits `Paused` then `Resumed`.
pub proof fn lemma_pause_resume_round_trip(m: EngineModel, id: Seq<char>)
    requires
        m.wf(),
        m.has(id),
        !m.torrents[m.position(id)].paused,
    ensures
        pause_transition(m, id, true).0 is Ok,
        pause_transition(pause_transition(m, id, true).1, id, false).0 is Ok,
        pause_transition(pause_transition(m, id, true).1, id, false).1.torrents == m.torrents,
        pause_transition(pause_transition(m, id, true).1, id, false).1.events == m.events.push(
            EventModel::Paused(id),
        ).push(EventModel::Resumed(id)),
{
    let i = m.position(id);
    let p = pause_transition(m, id, true).1;
    assert(p.torrents[i].id() == id);
    assert forall|a: int, b: int| 0 <= a < b < p.torrents.len() implies #[trigger] p.torrents[a].id()
        != #[trigger] p.torrents[b].id() by {
        assert(m.torrents[a].id() != m.torrents[b].id());
    }
    assert forall|a: int| 0 <= a < p.torrents.len() implies stats_in_range(#[trigger] p.torrents[a].stats) by {
        assert(stats_in_range(m.torrents[a].stats));
    }
    assert forall|a: int| 0 <= a < p.torrents.len() implies #[trigger] p.torrents[a].downloaded_agrees() by {
        assert(m.torrents[a].downloaded_agrees());
    }
    lemma_unique_position(p, id, i);
    assert(pause_transition(p, id, false).1.torrents =~= m.torrents);
}

/// Removing an unregistered identifier fails with `NotFound` and changes
/// nothing; removing a registered one succeeds and it is then absent.
pub proof fn lemma_remove(m: EngineModel, id: Seq<char>)
    requires
        m.wf(),
    ensures
        !m.has(id) ==> removal(m, id) == (Err::<(), EngineError>(EngineError::NotFound), m),
        m.has(id) ==> removal(m, id).0 is Ok && !removal(m, id).1.has(id),
        m.has(id) ==> removal(m, id).1.torrents.len() + 1 == m.torrents.len(),
{
    if m.has(id) {
        let i = m.position(id);
        let n = removal(m, id).1;
        if n.has(id) {
            let k = n.position(id);
            if k < i {
                assert(m.torrents[k].id() != m.torrents[i].id());
            } else {
                assert(m.torrents[i].id() != m.torrents[k + 1].id());
            }
        }
    }
}

/// A handle after `n` reporter ticks.
pub open spec fn ticks(h: HandleModel, n: nat) -> HandleModel
    decreases n,
{
    if n == 0 {
        h
    } else {
        advanced(ticks(h, (n - 1) as nat))
    }
}

/// The events that `n` reporter ticks emit for one handle.
pub open spec fn tick_history(h: HandleModel, n: nat) -> Seq<EventModel>
    decreases n,
{
    if n == 0 {
        Seq::empty()
    } else {
        tick_history(h, (n - 1) as nat) + handle_tick_events(ticks(h, (n - 1) as nat))
    }
}

/// How many `Completed` events `evs` holds.
pub open spec fn completions(evs: Seq<EventModel>) -> nat
    decreases evs.len(),
{
    if evs.len() == 0 {
        0
    } else {
        completions(evs.drop_last()) + if evs.last() is Completed {
            1nat
        } else {
            0nat
        }
    }
}

proof fn lemma_completions_append(a: Seq<EventModel>, b: Seq<EventModel>)
    ensures
        completions(a + b) == completions(a) + completions(b),
    decreases b.len(),
{
    if b.len() == 0 {
        assert(a + b =~= a);
    } else {
        lemma_completions_append(a, b.drop_last());
        assert((a + b).drop_last() =~= a + b.drop_last());
    }
}

proof fn lemma_ticks_stay_unpaused(h: HandleModel, n: nat)
    requires
        !h.paused,
        stats_in_range(h.stats),
    ensures
        !ticks(h, n).paused,
        stats_in_range(ticks(h, n).stats),
        ticks(h, n).info == h.info,
    decreases n,
{
    if n > 0 {
        lemma_ticks_stay_unpaused(h, (n - 1) as nat);
    }
}

proof fn lemma_one_tick(t: HandleModel)
    requires
        !t.paused,
        stats_in_range(t.stats),
    ensures
        advanced(t).stats.progress >= t.stats.progress,
        t.stats.progress < PROGRESS_SCALE && advanced(t).stats.progress == PROGRESS_SCALE
            ==> handle_tick_events(t) == seq![
            EventModel::Progress(t.id(), advanced(t).stats),
            EventModel::Completed(t.id()),
        ] && completions(handle_tick_events(t)) == 1,
        !(t.stats.progress < PROGRESS_SCALE && advanced(t).stats.progress == PROGRESS_SCALE)
            ==> completions(handle_tick_events(t)) == 0,
{
    let e = handle_tick_events(t);
    if t.is_active() {
        if advanced_stats(t.stats, t.info.size).progress == PROGRESS_SCALE {
            assert(e.drop_last().drop_last() =~= Seq::<EventModel>::empty());
            assert(e.drop_last() =~= seq![e[0]]);
            assert(completions(Seq::<EventModel>::empty()) == 0);
            assert(completions(e.drop_last()) == 0);
            assert(completions(e) == 1);
        } else {
            assert(e.drop_last() =~= Seq::<EventModel>::empty());
            assert(completions(Seq::<EventModel>::empty()) == 0);
            assert(completions(e) == 0);
        }
    } else {
        assert(completions(Seq::<EventModel>::empty()) == 0);
    }
}

proof fn lemma_tick_step(h: HandleModel, k: nat)
    requires
        !h.paused,
        stats_in_range(h.stats),
    ensures
        ticks(h, k).stats.progress <= ticks(h, k + 1).stats.progress,
        ticks(h, k).stats.progress < PROGRESS_SCALE && ticks(h, k + 1).stats.progress == PROGRESS_SCALE
            ==> handle_tick_events(ticks(h, k)) == seq![
            EventModel::Progress(h.id(), ticks(h, k + 1).stats),
            EventModel::Completed(h.id()),
        ] && completions(handle_tick_events(ticks(h, k))) == 1,
        !(ticks(h, k).stats.progress < PROGRESS_SCALE && ticks(h, k + 1).stats.progress
            == PROGRESS_SCALE) ==> completions(handle_tick_events(ticks(h, k))) == 0,
{
    lemma_ticks_stay_unpaused(h, k);
    assert(ticks(h, k + 1) == advanced(ticks(h, k)));
    lemma_one_tick(ticks(h, k));
}

proof fn lemma_completion_count(h: HandleModel, n: nat)
    requires
        !h.paused,
        stats_in_range(h.stats),
        h.stats.progress < PROGRESS_SCALE,
    ensures
        completions(tick_history(h, n)) == if ticks(h, n).stats.progress == PROGRESS_SCALE {
            1nat
        } else {
            0nat
        },
    decreases n,
{
    if n > 0 {
        let k = (n - 1) as nat;
        lemma_completion_count(h, k);
        lemma_tick_step(h, k);
        lemma_completions_append(tick_history(h, k), handle_tick_events(ticks(h, k)));
        assert(tick_history(h, n) == tick_history(h, k) + handle_tick_events(ticks(h, k)));
        assert(ticks(h, n) == ticks(h, k + 1));
    }
}

/// Over `n` reporter ticks of an unpaused, incomplete torrent with no other
/// change, progress never decreases, and `Completed` is emitted once in
/// all if and only if progress has reached completion; it is emitted on the
/// tick that first reaches it, right after that tick's `Progress`, and on
/// no other tick.
#[verifier::rlimit(100)]
pub proof fn lemma_ticks_complete_once(h: HandleModel, n: nat)
    requires
        !h.paused,
        stats_in_range(h.stats),
        h.stats.progress < PROGRESS_SCALE,
    ensures
        forall|k: nat| k < n ==> #[trigger] ticks(h, k).stats.progress <= ticks(h, k + 1).stats.progress,
        completions(tick_history(h, n)) == if ticks(h, n).stats.progress == PROGRESS_SCALE {
            1nat
        } else {
            0nat
        },
        forall|k: nat|
            k < n && ticks(h, k).stats.progress < PROGRESS_SCALE && ticks(h, k + 1).stats.progress
                == PROGRESS_SCALE ==> #[trigger] handle_tick_events(ticks(h, k)) == seq![
                EventModel::Progress(h.id(), ticks(h, k + 1).stats),
                EventModel::Completed(h.id()),
            ],
        forall|k: nat|
            k < n && !(ticks(h, k).stats.progress < PROGRESS_SCALE && ticks(h, k + 1).stats.progress
                == PROGRESS_SCALE) ==> completions(#[trigger] handle_tick_events(ticks(h, k))) == 0,
{
    lemma_completion_count(h, n);
    assert forall|k: nat| k < n implies #[trigger] ticks(h, k).stats.progress <= ticks(h, k + 1).stats.progress by {
        lemma_tick_step(h, k);
    }
    assert forall|k: nat|
        k < n && ticks(h, k).stats.progress < PROGRESS_SCALE && ticks(h, k + 1).stats.progress
            == PROGRESS_SCALE implies #[trigger] handle_tick_events(ticks(h, k)) == seq![
            EventModel::Progress(h.id(), ticks(h, k + 1).stats),
            EventModel::Completed(h.id()),
        ] by {
        lemma_tick_step(h, k);
    }
    assert forall|k: nat|
        k < n && !(ticks(h, k).stats.progress < PROGRESS_SCALE && ticks(h, k + 1).stats.progress
            == PROGRESS_SCALE) implies completions(#[trigger] handle_tick_events(ticks(h, k))) == 0 by {
        lemma_tick_step(h, k);
    }
}

/// On an engine with one torrent, a reporter tick advances that torrent and
/// emits exactly its events.
pub proof fn lemma_tick_single(m: EngineModel)
    requires
        m.torrents.len() == 1,
    ensures
        tick_transition(m).torrents == seq![advanced(m.torrents[0])],
        tick_transition(m).events == m.events + handle_tick_events(m.torrents[0]),
{
    assert(tick_transition(m).torrents =~= seq![advanced(m.torrents[0])]);
    assert(m.torrents.drop_last() =~= Seq::<HandleModel>::empty());
    assert(tick_events(Seq::<HandleModel>::empty()) == Seq::<EventModel>::empty());
    assert(m.torrents.last() == m.torrents[0]);
    assert(tick_events(m.torrents) =~= handle_tick_events(m.torrents[0]));
}

proof fn lemma_downloaded_monotone(size: u64, p: u32, q: u32)
    requires
        p <= q <= PROGRESS_SCALE,
    ensures
        downloaded_at(size, p) <= downloaded_at(size, q),
{
    assert(size * p <= size * q) by (nonlinear_arith)
        requires
            p <= q,
    ;
    assert((size * p + 50) / 100 <= (size * q + 50) / 100) by (nonlinear_arith)
        requires
            size * p <= size * q,
    ;
    assert(size * q <= size * 100) by (nonlinear_arith)
        requires
            q <= 100,
    ;
    assert((size * q + 50) / 100 <= size) by (nonlinear_arith)
        requires
            size * q <= size * 100,
    ;
}

/// A reporter tick never lowers any torrent's progress or downloaded bytes.
pub proof fn lemma_tick_never_lowers(m: EngineModel)
    requires
        m.wf(),
    ensures
        tick_transition(m).torrents.len() == m.torrents.len(),
        forall|i: int|
            0 <= i < m.torrents.len() ==> #[trigger] tick_transition(m).torrents[i].stats.downloaded
                >= m.torrents[i].stats.downloaded && tick_transition(m).torrents[i].stats.progress
                >= m.torrents[i].stats.progress,
{
    assert forall|i: int| 0 <= i < m.torrents.len() implies #[trigger] tick_transition(m).torrents[i].stats.downloaded
        >= m.torrents[i].stats.downloaded && tick_transition(m).torrents[i].stats.progress
        >= m.torrents[i].stats.progress by {
        let h = m.torrents[i];
        assert(stats_in_range(h.stats));
        assert(h.downloaded_agrees());
        if h.is_active() {
            let p = advanced_stats(h.stats, h.info.size).progress;
            lemma_downloaded_monotone(h.info.size, h.stats.progress, p);
        }
    }
}

proof fn lemma_tick_preserves_wf(m: EngineModel)
    requires
        m.wf(),
    ensures
        tick_transition(m).wf(),
{
    let n = tick_transition(m);
    assert forall|a: int, b: int| 0 <= a < b < n.torrents.len() implies #[trigger] n.torrents[a].id()
        != #[trigger] n.torrents[b].id() by {
        assert(m.torrents[a].id() != m.torrents[b].id());
    }
    assert forall|a: int| 0 <= a < n.torrents.len() implies stats_in_range(#[trigger] n.torrents[a].stats) by {
        assert(stats_in_range(m.torrents[a].stats));
        assert(m.torrents[a].downloaded_agrees());
    }
    assert forall|a: int| 0 <= a < n.torrents.len() implies #[trigger] n.torrents[a].downloaded_agrees() by {
        assert(stats_in_range(m.torrents[a].stats));
        assert(m.torrents[a].downloaded_agrees());
    }
}

/// Bytes downloaded of a torrent of `size` bytes at `progress` hundredths,
/// rounded to the nearest byte.
pub fn downloaded_for(size: u64, progress: u32) -> (r: u64)
    requires
        progress <= PROGRESS_SCALE,
    ensures
        r == downloaded_at(size, progress),
{
    assert(size * progress <= size * 100) by (nonlinear_arith)
        requires
            progress <= 100,
    ;
    let prod: u128 = size as u128 * progress as u128;
    assert((size * progress + 50) / 100 <= size) by (nonlinear_arith)
        requires
            size * progress <= size * 100,
    ;
    ((prod + 50) / 100) as u64
}

/// The statistics after one reporter tick of an active torrent.
pub fn advance_stats(s: TorrentStats, size: u64) -> (r: TorrentStats)
    requires
        stats_in_range(s),
        s.progress < PROGRESS_SCALE,
    ensures
        r == advanced_stats(s, size),
        stats_in_range(r),
        r.progress >= s.progress,
{
    let p: u32 = if s.progress + PROGRESS_STEP >= PROGRESS_SCALE {
        PROGRESS_SCALE
    } else {
        s.progress + PROGRESS_STEP
    };
    TorrentStats {
        downloaded: downloaded_for(size, p),
        uploaded: s.uploaded,
        download_rate: (s.download_rate + DOWNLOAD_RATE_STEP) % DOWNLOAD_RATE_CAP,
        upload_rate: (s.upload_rate + UPLOAD_RATE_STEP) % UPLOAD_RATE_CAP,
        progress: p,
        peers: s.peers % PEER_CYCLE + 1,
        seeds: s.seeds % SEED_CYCLE + 1,
    }
}

impl TorrentEngine {
    /// An engine with an empty registry and no pending events, that admits
    /// at most `max_torrents` torrents.
    pub fn new(download_path: String, max_torrents: usize) -> (r: TorrentEngine)
        ensures
            r@.wf(),
            r@.torrents.len() == 0,
            r@.events.len() == 0,
            r@.download_path == download_path@,
            r@.max_torrents == max_torrents,
    {
        let r = TorrentEngine { torrents: Vec::new(), events: Vec::new(), download_path, max_torrents };
        assert(r@.torrents =~= Seq::<HandleModel>::empty());
        assert(r@.events =~= Seq::<EventModel>::empty());
        r
    }

    /// Where downloaded data goes.
    pub fn download_path(&self) -> (r: &str)
        ensures
            r@ == self@.download_path,
    {
        self.download_path.as_str()
    }

    /// The number of registered torrents.
    pub fn len(&self) -> (r: usize)
        ensures
            r == self@.torrents.len(),
    {
        self.torrents.len()
    }

    /// The number of emitted events not yet taken.
    pub fn pending_events(&self) -> (r: usize)
        ensures
            r == self@.events.len(),
    {
        self.events.len()
    }

    fn find(&self, id: &str) -> (r: Option<usize>)
        requires
            self@.wf(),
        ensures
            match r {
                Some(i) => i < self@.torrents.len() && self@.has(id@) && self@.position(id@) == i,
                None => !self@.has(id@),
            },
    {
        let mut i: usize = 0;
        while i < self.torrents.len()
            invariant
                self@.wf(),
                i <= self@.torrents.len(),
                forall|j: int| 0 <= j < i ==> self@.torrents[j].id() != id@,
            decreases self@.torrents.len() - i,
        {
            if same_text(self.torrents[i].info.info_hash.as_str(), id) {
                proof {
                    lemma_unique_position(self@, id@, i as int);
                }
                return Some(i);
            }
            i = i + 1;
        }
        None
    }

    /// The handle registered under `id`, if any.
    pub fn get(&self, id: &str) -> (r: Option<&TorrentHandle>)
        requires
            self@.wf(),
        ensures
            match r {
                Some(h) => self@.has(id@) && h@ == self@.torrents[self@.position(id@)],
                None => !self@.has(id@),
            },
    {
        match self.find(id) {
            Some(i) => Some(&self.torrents[i]),
            None => None,
        }
    }

    fn register(&mut self, info: TorrentInfo) -> (r: Result<String, EngineError>)
        requires
            old(self)@.wf(),
            info@.sizes_agree(),
        ensures
            final(self)@.wf(),
            (id_result(r), final(self)@) == admission(old(self)@, info@),
    {
        if self.find(info.info_hash.as_str()).is_some() {
            return Err(EngineError::DuplicateIdentifier);
        }
        if self.torrents.len() >= self.max_torrents {
            return Err(EngineError::CapacityExceeded);
        }
        let ghost m = self@;
        let id = info.info_hash.clone();
        let event = TorrentEvent::Added(id.clone(), info.duplicate());
        let handle = TorrentHandle {
            info,
            stats: TorrentStats {
                downloaded: 0,
                uploaded: 0,
                download_rate: 0,
                upload_rate: 0,
                progress: 0,
                peers: 0,
                seeds: 0,
            },
            paused: false,
        };
        self.torrents.push(handle);
        self.events.push(event);
        assert(self@.torrents =~= m.torrents.push(fresh_handle(info@)));
        assert(downloaded_at(info@.size, 0) == 0);
        assert(self@.torrents[m.torrents.len() as int].downloaded_agrees());
        assert(self@.events =~= m.events.push(EventModel::Added(id@, info@)));
        assert forall|i: int, j: int|
            0 <= i < j < self@.torrents.len() implies #[trigger] self@.torrents[i].id()
            != #[trigger] self@.torrents[j].id() by {
            if j == m.torrents.len() {
                assert(self@.torrents[i] == m.torrents[i]);
            }
        }
        Ok(id)
    }

    /// Admits a torrent by magnet URI, under the identifier that its first
    /// `xt=urn:btih:` parameter names, with placeholder metadata.
    pub fn add_magnet(&mut self, uri: &str) -> (r: Result<String, EngineError>)
        requires
            old(self)@.wf(),
        ensures
            final(self)@.wf(),
            (id_result(r), final(self)@) == magnet_admission(old(self)@, uri@),
    {
        let id = match identifier_from_uri(uri) {
            Ok(id) => id,
            Err(e) => {
                return Err(e);
            },
        };
        let info = TorrentInfo {
            name: id.clone(),
            size: 0,
            info_hash: id,
            announce_urls: Vec::new(),
            files: Vec::new(),
        };
        assert(info@.announce_urls =~= Seq::<Seq<char>>::empty());
        assert(info@.files =~= Seq::<FileModel>::empty());
        assert(info@ =~= placeholder_info(info.info_hash@));
        self.register(info)
    }

    /// Admits a torrent from the bytes of a metadata file.
    pub fn add_torrent_file(&mut self, bytes: &[u8]) -> (r: Result<String, EngineError>)
        requires
            old(self)@.wf(),
        ensures
            final(self)@.wf(),
            (id_result(r), final(self)@) == file_admission(old(self)@, bytes@),
    {
        let info = match read_metadata(bytes) {
            Ok(info) => info,
            Err(e) => {
                return Err(e);
            },
        };
        self.register(info)
    }

    fn set_paused(&mut self, id: &str, flag: bool) -> (r: Result<(), EngineError>)
        requires
            old(self)@.wf(),
        ensures
            final(self)@.wf(),
            (r, final(self)@) == pause_transition(old(self)@, id@, flag),
    {
        let ghost m = self@;
        match self.find(id) {
            None => Err(EngineError::NotFound),
            Some(i) => {
                self.torrents[i].paused = flag;
                let event = if flag {
                    TorrentEvent::Paused(id.to_owned())
                } else {
                    TorrentEvent::Resumed(id.to_owned())
                };
                self.events.push(event);
                assert(self@.torrents =~= m.torrents.update(
                    i as int,
                    HandleModel { paused: flag, ..m.torrents[i as int] },
                ));
                assert forall|a: int| 0 <= a < self@.torrents.len() implies #[trigger] self@.torrents[a].downloaded_agrees() by {
                    assert(m.torrents[a].downloaded_agrees());
                }
                assert(self@.events =~= m.events.push(
                    if flag {
                        EventModel::Paused(id@)
                    } else {
                        EventModel::Resumed(id@)
                    },
                ));
                Ok(())
            },
        }
    }

    /// Pauses the torrent `id`; pausing a paused torrent emits `Paused` again.
    pub fn pause_torrent(&mut self, id: &str) -> (r: Result<(), EngineError>)
        requires
            old(self)@.wf(),
        ensures
            final(self)@.wf(),
            (r, final(self)@) == pause_transition(old(self)@, id@, true),
    {
        self.set_paused(id, true)
    }

    /// Resumes the torrent `id`; resuming an active torrent emits `Resumed`
    /// again.
    pub fn resume_torrent(&mut self, id: &str) -> (r: Result<(), EngineError>)
        requires
            old(self)@.wf(),
        ensures
            final(self)@.wf(),
            (r, final(self)@) == pause_transition(old(self)@, id@, false),
    {
        self.set_paused(id, false)
    }

    /// Removes the torrent `id` from the registry.
    pub fn remove_torrent(&mut self, id: &str) -> (r: Result<(), EngineError>)
        requires
            old(self)@.wf(),
        ensures
            final(self)@.wf(),
            (r, final(self)@) == removal(old(self)@, id@),
    {
        let ghost m = self@;
        match self.find(id) {
            None => Err(EngineError::NotFound),
            Some(i) => {
                self.torrents.remove(i);
                assert(self@.torrents =~= m.torrents.remove(i as int));
                assert(self@.events =~= m.events);
                assert forall|a: int, b: int|
                    0 <= a < b < self@.torrents.len() implies #[trigger] self@.torrents[a].id()
                    != #[trigger] self@.torrents[b].id() by {
                    if a < i {
                        if b < i {
                            assert(m.torrents[a].id() != m.torrents[b].id());
                        } else {
                            assert(m.torrents[a].id() != m.torrents[b + 1].id());
                        }
                    } else {
                        assert(m.torrents[a + 1].id() != m.torrents[b + 1].id());
                    }
                }
                assert forall|a: int| 0 <= a < self@.torrents.len() implies #[trigger] self@.torrents[a].downloaded_agrees() by {
                    if a < i {
                        assert(m.torrents[a].downloaded_agrees());
                    } else {
                        assert(m.torrents[a + 1].downloaded_agrees());
                    }
                }
                Ok(())
            },
        }
    }

    fn advance_handle(&mut self, i: usize)
        requires
            i < old(self)@.torrents.len(),
            stats_in_range(old(self)@.torrents[i as int].stats),
        ensures
            final(self)@ == old(self)@.with(
                old(self)@.torrents.update(i as int, advanced(old(self)@.torrents[i as int])),
                old(self)@.events + handle_tick_events(old(self)@.torrents[i as int]),
            ),
    {
        let ghost m = self@;
        let h = &self.torrents[i];
        if !h.paused && h.stats.progress < PROGRESS_SCALE {
            let s = advance_stats(h.stats, h.info.size);
            let id = h.info.info_hash.clone();
            self.torrents[i].stats = s;
            self.events.push(TorrentEvent::Progress(id.clone(), s));
            if s.progress == PROGRESS_SCALE {
                self.events.push(TorrentEvent::Completed(id));
            }
        }
        assert(self@.torrents =~= m.torrents.update(i as int, advanced(m.torrents[i as int])));
        assert(self@.events =~= m.events + handle_tick_events(m.torrents[i as int]));
    }

    /// One reporter tick: every handle that is neither paused nor complete
    /// advances, in registry order, emitting `Progress` and, on the tick that
    /// completes it, `Completed` right after.
    #[verifier::rlimit(40)]
    pub fn report_progress(&mut self)
        requires
            old(self)@.wf(),
        ensures
            final(self)@.wf(),
            final(self)@ == tick_transition(old(self)@),
    {
        let ghost m = self@;
        let mut i: usize = 0;
        while i < self.torrents.len()
            invariant
                m.wf(),
                self@.download_path == m.download_path,
                self@.max_torrents == m.max_torrents,
                self@.torrents.len() == m.torrents.len(),
                i <= m.torrents.len(),
                forall|j: int| 0 <= j < i ==> #[trigger] self@.torrents[j] == advanced(m.torrents[j]),
                forall|j: int| i <= j < m.torrents.len() ==> #[trigger] self@.torrents[j] == m.torrents[j],
                self@.events == m.events + tick_events(m.torrents.take(i as int)),
            decreases m.torrents.len() - i,
        {
            let ghost before = self@;
            assert(m.torrents.take(i + 1).drop_last() =~= m.torrents.take(i as int));
            assert(before.torrents[i as int] == m.torrents[i as int]);
            assert(stats_in_range(m.torrents[i as int].stats));
            self.advance_handle(i);
            assert(self@.events =~= m.events + tick_events(m.torrents.take(i + 1)));
            i = i + 1;
        }
        assert(self@.torrents =~= m.torrents.map_values(|h: HandleModel| advanced(h)));
        assert(m.torrents.take(i as int) =~= m.torrents);
        proof {
            lemma_tick_preserves_wf(m);
        }
    }

    /// Hands over the pending events in emission order and empties the queue.
    pub fn take_events(&mut self) -> (r: Vec<TorrentEvent>)
        requires
            old(self)@.wf(),
        ensures
            final(self)@.wf(),
            r@.map_values(|e: TorrentEvent| e@) == old(self)@.events,
            final(self)@ == old(self)@.with(old(self)@.torrents, Seq::empty()),
    {
        let ghost m = self@;
        let mut taken: Vec<TorrentEvent> = Vec::new();
        std::mem::swap(&mut taken, &mut self.events);
        assert(self@.events =~= Seq::<EventModel>::empty());
        assert(self@.torrents == m.torrents);
        taken
    }
}

} // verus!

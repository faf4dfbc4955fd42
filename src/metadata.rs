use vstd::prelude::*;

use crate::error::EngineError;
use crate::nesting::{check_nesting, nesting_within_limit};

verus! {

/// One file of a torrent: its path relative to the torrent root, with `/`
/// between segments, and its size in bytes.
#[derive(Debug)]
pub struct FileInfo {
    pub path: String,
    pub size: u64,
}

/// What a `FileInfo` holds, as mathematical values.
pub struct FileModel {
    pub path: Seq<char>,
    pub size: u64,
}

impl View for FileInfo {
    type V = FileModel;

    open spec fn view(&self) -> FileModel {
        FileModel { path: self.path@, size: self.size }
    }
}

/// Immutable description of a torrent: display name, total size in bytes,
/// identifier, announce endpoints in order, and files in order.
#[derive(Debug)]
pub struct TorrentInfo {
    pub name: String,
    pub size: u64,
    pub info_hash: String,
    pub announce_urls: Vec<String>,
    pub files: Vec<FileInfo>,
}

/// What a `TorrentInfo` holds, as mathematical values.
pub struct InfoModel {
    pub name: Seq<char>,
    pub size: u64,
    pub info_hash: Seq<char>,
    pub announce_urls: Seq<Seq<char>>,
    pub files: Seq<FileModel>,
}

pub open spec fn strings_view(v: Seq<String>) -> Seq<Seq<char>> {
    v.map_values(|s: String| s@)
}

pub open spec fn files_view(v: Seq<FileInfo>) -> Seq<FileModel> {
    v.map_values(|f: FileInfo| f@)
}

impl View for TorrentInfo {
    type V = InfoModel;

    open spec fn view(&self) -> InfoModel {
        InfoModel {
            name: self.name@,
            size: self.size,
            info_hash: self.info_hash@,
            announce_urls: strings_view(self.announce_urls@),
            files: files_view(self.files@),
        }
    }
}

/// Sum of the file sizes listed in `files`.
pub open spec fn files_total(files: Seq<FileModel>) -> int
    decreases files.len(),
{
    if files.len() == 0 {
        0
    } else {
        files_total(files.drop_last()) + files.last().size
    }
}

impl InfoModel {
    /// The metadata's size agrees with its files.
    pub open spec fn sizes_agree(self) -> bool {
        self.size == files_total(self.files)
    }
}

fn clone_strings(v: &Vec<String>) -> (r: Vec<String>)
    ensures
        strings_view(r@) == strings_view(v@),
{
    let mut r: Vec<String> = Vec::new();
    let mut i: usize = 0;
    while i < v.len()
        invariant
            i <= v@.len(),
            r@.len() == i,
            forall|j: int| 0 <= j < i ==> r@[j]@ == v@[j]@,
        decreases v@.len() - i,
    {
        r.push(v[i].clone());
        i = i + 1;
    }
    assert(strings_view(r@) =~= strings_view(v@));
    r
}

fn clone_files(v: &Vec<FileInfo>) -> (r: Vec<FileInfo>)
    ensures
        files_view(r@) == files_view(v@),
{
    let mut r: Vec<FileInfo> = Vec::new();
    let mut i: usize = 0;
    while i < v.len()
        invariant
            i <= v@.len(),
            r@.len() == i,
            forall|j: int| 0 <= j < i ==> r@[j]@ == v@[j]@,
        decreases v@.len() - i,
    {
        r.push(FileInfo { path: v[i].path.clone(), size: v[i].size });
        i = i + 1;
    }
    assert(files_view(r@) =~= files_view(v@));
    r
}

impl TorrentInfo {
    /// A second value with the same contents.
    pub fn duplicate(&self) -> (r: TorrentInfo)
        ensures
            r@ == self@,
    {
        TorrentInfo {
            name: self.name.clone(),
            size: self.size,
            info_hash: self.info_hash.clone(),
            announce_urls: clone_strings(&self.announce_urls),
            files: clone_files(&self.files),
        }
    }
}

/// The digit that stands for `n` (below 16) in lower-case hexadecimal.
pub open spec fn hex_digit(n: int) -> char {
    seq!['0', '1', '2', '3', '4', '5', '6', '7', '8', '9', 'a', 'b', 'c', 'd', 'e', 'f'][n]
}

/// Lower-case hexadecimal text of `b`: two digits per byte, high nibble first.
pub open spec fn hex_of(b: Seq<u8>) -> Seq<char>
    decreases b.len(),
{
    if b.len() == 0 {
        Seq::empty()
    } else {
        let x = b.last();
        hex_of(b.drop_last()) + seq![hex_digit(x as int / 16), hex_digit(x as int % 16)]
    }
}

proof fn lemma_hex_len(b: Seq<u8>)
    ensures
        hex_of(b).len() == 2 * b.len(),
    decreases b.len(),
{
    if b.len() > 0 {
        lemma_hex_len(b.drop_last());
    }
}

/// Relies on `hex::encode`: every byte becomes two lower-case hex digits,
/// in order, high nibble first.
#[verifier::external_body]
fn hex_encode(b: &Vec<u8>) -> (r: String)
    ensures
        r@ == hex_of(b@),
{
    hex::encode(b)
}


/// One file entry as a metadata file lists it: its length and its path
/// segments.
pub struct RawFile {
    pub length: i64,
    pub path: Vec<String>,
}

/// A decoded metadata file, with the digest of its info dictionary.
/// `files` is `None` for a single-file torrent, whose length is `length`.
pub struct RawTorrent {
    pub name: String,
    pub length: i64,
    pub files: Option<Vec<RawFile>>,
    pub announce: Option<String>,
    pub announce_list: Option<Vec<Vec<String>>>,
    pub info_hash: Vec<u8>,
}

/// What decoding the metadata bytes `b` gives: `None` where they are not a
/// valid metadata file.
pub uninterp spec fn decoded_torrent(b: Seq<u8>) -> Option<RawTorrent>;

/// Relies on lava_torrent's `Torrent::read_from_bytes`, which decodes and
/// validates the bencoded bytes, and on `Torrent::info_hash_bytes`, the SHA-1
/// digest of the torrent's info dictionary (20 bytes); both depend on the
/// bytes alone.
/// Its bencode parser recurses once per level of nesting, with no limit of
/// its own, so the bytes must nest within `MAX_NESTING`.
#[verifier::external_body]
fn decode_torrent(bytes: &[u8]) -> (r: Option<RawTorrent>)
    requires
        nesting_within_limit(bytes@),
    ensures
        r == decoded_torrent(bytes@),
        r is Some ==> r->Some_0.info_hash@.len() == 20,
{
    lava_torrent::torrent::v1::Torrent::read_from_bytes(bytes).ok().map(|t| RawTorrent {
        info_hash: t.info_hash_bytes(),
        files: t.files.map(|fs| fs.into_iter().map(|f| RawFile {
            length: f.length,
            path: f.path.iter().map(|c| c.to_string_lossy().into_owned()).collect(),
        }).collect()),
        name: t.name,
        length: t.length,
        announce: t.announce,
        announce_list: t.announce_list,
    })
}

/// Path segments joined with `/`.
pub open spec fn join_segments(parts: Seq<Seq<char>>) -> Seq<char>
    decreases parts.len(),
{
    if parts.len() == 0 {
        Seq::empty()
    } else if parts.len() == 1 {
        parts[0]
    } else {
        join_segments(parts.drop_last()) + seq!['/'] + parts.last()
    }
}

/// The file lengths that a decoded torrent lists, in order.
pub open spec fn raw_lengths(raw: RawTorrent) -> Seq<i64> {
    match raw.files {
        Some(fs) => fs@.map_values(|f: RawFile| f.length),
        None => seq![raw.length],
    }
}

pub open spec fn lengths_total(s: Seq<i64>) -> int
    decreases s.len(),
{
    if s.len() == 0 {
        0
    } else {
        lengths_total(s.drop_last()) + s.last()
    }
}

/// A decoded torrent can be admitted: no file length is negative and the
/// total size fits in 64 bits.
pub open spec fn conformant(raw: RawTorrent) -> bool {
    &&& forall|i: int| 0 <= i < raw_lengths(raw).len() ==> raw_lengths(raw)[i] >= 0
    &&& lengths_total(raw_lengths(raw)) <= u64::MAX
}

/// The file entries of a decoded torrent: the listed files in order, or the
/// one implicit file named after the torrent.
pub open spec fn file_models(raw: RawTorrent) -> Seq<FileModel> {
    match raw.files {
        Some(fs) => fs@.map_values(
            |f: RawFile| FileModel { path: join_segments(strings_view(f.path@)), size: f.length as u64 },
        ),
        None => seq![FileModel { path: raw.name@, size: raw.length as u64 }],
    }
}

pub open spec fn flatten_tiers(tiers: Seq<Seq<Seq<char>>>) -> Seq<Seq<char>>
    decreases tiers.len(),
{
    if tiers.len() == 0 {
        Seq::empty()
    } else {
        flatten_tiers(tiers.drop_last()) + tiers.last()
    }
}

pub open spec fn tiers_view(tiers: Seq<Vec<String>>) -> Seq<Seq<Seq<char>>> {
    tiers.map_values(|t: Vec<String>| strings_view(t@))
}

/// The primary announce endpoint, then every tier of the announce list in
/// order, each tier in its own order.
pub open spec fn announce_model(raw: RawTorrent) -> Seq<Seq<char>> {
    let primary = match raw.announce {
        Some(a) => seq![a@],
        None => Seq::empty(),
    };
    let tiers = match raw.announce_list {
        Some(l) => flatten_tiers(tiers_view(l@)),
        None => Seq::empty(),
    };
    primary + tiers
}

/// The metadata that a decoded torrent describes, under identifier `id`.
pub open spec fn info_model(raw: RawTorrent, id: Seq<char>) -> InfoModel {
    InfoModel {
        name: raw.name@,
        size: lengths_total(raw_lengths(raw)) as u64,
        info_hash: id,
        announce_urls: announce_model(raw),
        files: file_models(raw),
    }
}

proof fn lemma_total_prefix(s: Seq<i64>, k: int)
    requires
        0 <= k <= s.len(),
        forall|i: int| 0 <= i < s.len() ==> s[i] >= 0,
    ensures
        lengths_total(s.take(k)) <= lengths_total(s),
    decreases s.len() - k,
{
    if k < s.len() {
        lemma_total_prefix(s, k + 1);
        assert(s.take(k + 1).drop_last() =~= s.take(k));
    } else {
        assert(s.take(k) =~= s);
    }
}

/// The file sizes of the metadata that a conformant torrent describes add
/// up to its total size.
pub proof fn lemma_sizes_agree(raw: RawTorrent, id: Seq<char>)
    requires
        conformant(raw),
    ensures
        info_model(raw, id).sizes_agree(),
        info_model(raw, id).files.len() == raw_lengths(raw).len(),
        forall|i: int|
            0 <= i < raw_lengths(raw).len() ==> info_model(raw, id).files[i].size == raw_lengths(raw)[i],
{
    let ls = raw_lengths(raw);
    let fm = file_models(raw);
    assert forall|i: int| 0 <= i < ls.len() implies fm[i].size == ls[i] by {
        match raw.files {
            Some(fs) => {},
            None => {},
        }
    }
    lemma_total_prefix(ls, 0);
    assert(ls.take(0) =~= Seq::<i64>::empty());
    assert forall|k: int| 0 <= k <= ls.len() implies files_total(fm.take(k)) == lengths_total(ls.take(k))
        by {
        lemma_prefix_totals(ls, fm, k);
    }
    assert(fm.take(ls.len() as int) =~= fm);
    assert(ls.take(ls.len() as int) =~= ls);
}

proof fn lemma_prefix_totals(ls: Seq<i64>, fm: Seq<FileModel>, k: int)
    requires
        0 <= k <= ls.len(),
        fm.len() == ls.len(),
        forall|i: int| 0 <= i < ls.len() ==> ls[i] >= 0 && fm[i].size == ls[i],
    ensures
        files_total(fm.take(k)) == lengths_total(ls.take(k)),
    decreases k,
{
    if k > 0 {
        lemma_prefix_totals(ls, fm, k - 1);
        assert(fm.take(k).drop_last() =~= fm.take(k - 1));
        assert(ls.take(k).drop_last() =~= ls.take(k - 1));
    } else {
        assert(fm.take(0) =~= Seq::<FileModel>::empty());
        assert(ls.take(0) =~= Seq::<i64>::empty());
    }
}


/// Reading the same bytes twice gives the same metadata and identifier; a
/// valid single-file stream has the one file's length as total size, and the
/// hex digest of its info dictionary as identifier.
pub proof fn lemma_single_file_metadata(b1: Seq<u8>, b2: Seq<u8>)
    requires
        b1 == b2,
        nesting_within_limit(b1),
        decoded_torrent(b1) is Some,
        decoded_torrent(b1)->Some_0.files is None,
        conformant(decoded_torrent(b1)->Some_0),
    ensures
        metadata_outcome(b1) == metadata_outcome(b2),
        metadata_outcome(b1) is Some,
        metadata_outcome(b1)->Some_0.info_hash == hex_of(decoded_torrent(b1)->Some_0.info_hash@),
        metadata_outcome(b1)->Some_0.size == decoded_torrent(b1)->Some_0.length,
        metadata_outcome(b1)->Some_0.files == seq![
            FileModel {
                path: decoded_torrent(b1)->Some_0.name@,
                size: decoded_torrent(b1)->Some_0.length as u64,
            },
        ],
{
    let raw = decoded_torrent(b1)->Some_0;
    lemma_sizes_agree(raw, hex_of(raw.info_hash@));
    assert(raw_lengths(raw).drop_last() =~= Seq::<i64>::empty());
    assert(lengths_total(Seq::<i64>::empty()) == 0);
}

/// A valid multi-file stream lists its files in input order, and its total
/// size is the sum of their sizes.
pub proof fn lemma_multi_file_metadata(b: Seq<u8>)
    requires
        nesting_within_limit(b),
        decoded_torrent(b) is Some,
        decoded_torrent(b)->Some_0.files is Some,
        conformant(decoded_torrent(b)->Some_0),
    ensures
        metadata_outcome(b) is Some,
        metadata_outcome(b)->Some_0.size == files_total(metadata_outcome(b)->Some_0.files),
        metadata_outcome(b)->Some_0.files.len() == decoded_torrent(b)->Some_0.files->Some_0@.len(),
        forall|i: int|
            0 <= i < metadata_outcome(b)->Some_0.files.len() ==> metadata_outcome(b)->Some_0.files[i]
                == (FileModel {
                path: join_segments(strings_view(decoded_torrent(b)->Some_0.files->Some_0@[i].path@)),
                size: decoded_torrent(b)->Some_0.files->Some_0@[i].length as u64,
            }),
{
    let raw = decoded_torrent(b)->Some_0;
    lemma_sizes_agree(raw, hex_of(raw.info_hash@));
}

fn join_path(parts: &Vec<String>) -> (r: String)
    ensures
        r@ == join_segments(strings_view(parts@)),
{
    let mut r = String::new();
    let mut i: usize = 0;
    while i < parts.len()
        invariant
            i <= parts@.len(),
            r@ == join_segments(strings_view(parts@.take(i as int))),
        decreases parts@.len() - i,
    {
        assert(strings_view(parts@.take(i + 1)).drop_last() =~= strings_view(parts@.take(i as int)));
        if i > 0 {
            r.append("/");
            proof {
                reveal_strlit("/");
            }
        }
        r.append(parts[i].as_str());
        i = i + 1;
    }
    assert(parts@.take(i as int) =~= parts@);
    r
}

/// The file entries and their total, or `MalformedMetadata` where a length
/// is negative or the total does not fit in 64 bits.
fn collect_files(raw: &RawTorrent) -> (r: Result<(Vec<FileInfo>, u64), EngineError>)
    ensures
        match r {
            Ok((files, total)) => conformant(*raw) && files_view(files@) == file_models(*raw)
                && total == lengths_total(raw_lengths(*raw)),
            Err(e) => !conformant(*raw) && e == EngineError::MalformedMetadata,
        },
{
    match &raw.files {
        None => {
            assert(raw_lengths(*raw).drop_last() =~= Seq::<i64>::empty());
            assert(lengths_total(Seq::<i64>::empty()) == 0);
            if raw.length < 0 {
                assert(raw_lengths(*raw)[0] < 0);
                return Err(EngineError::MalformedMetadata);
            }
            let mut files: Vec<FileInfo> = Vec::new();
            files.push(FileInfo { path: raw.name.clone(), size: raw.length as u64 });
            assert(files_view(files@) =~= file_models(*raw));
            Ok((files, raw.length as u64))
        },
        Some(fs) => {
            let ghost ls = raw_lengths(*raw);
            let mut files: Vec<FileInfo> = Vec::new();
            let mut total: u64 = 0;
            let mut i: usize = 0;
            while i < fs.len()
                invariant
                    raw.files == Some(*fs),
                    ls == raw_lengths(*raw),
                    ls.len() == fs@.len(),
                    i <= fs@.len(),
                    forall|j: int| 0 <= j < i ==> ls[j] >= 0,
                    total == lengths_total(ls.take(i as int)),
                    files@.len() == i,
                    files_view(files@) == file_models(*raw).take(i as int),
                decreases fs@.len() - i,
            {
                let length: i64 = fs[i].length;
                assert(ls[i as int] == length);
                if length < 0 {
                    return Err(EngineError::MalformedMetadata);
                }
                assert(ls.take(i + 1).drop_last() =~= ls.take(i as int));
                match total.checked_add(length as u64) {
                    None => {
                        proof {
                            if forall|j: int| 0 <= j < ls.len() ==> ls[j] >= 0 {
                                lemma_total_prefix(ls, i + 1);
                            }
                        }
                        return Err(EngineError::MalformedMetadata);
                    },
                    Some(t) => {
                        total = t;
                    },
                }
                let path = join_path(&fs[i].path);
                let ghost prev = files@;
                files.push(FileInfo { path, size: length as u64 });
                assert(files@ =~= prev.push(files@[i as int]));
                assert(files_view(files@) =~= files_view(prev).push(files@[i as int]@));
                assert(file_models(*raw).take(i + 1) =~= file_models(*raw).take(i as int).push(
                    file_models(*raw)[i as int],
                ));
                assert(files_view(files@) =~= file_models(*raw).take(i + 1));
                i = i + 1;
            }
            assert(ls.take(i as int) =~= ls);
            assert(file_models(*raw).take(i as int) =~= file_models(*raw));
            Ok((files, total))
        },
    }
}

fn collect_announce(raw: &RawTorrent) -> (r: Vec<String>)
    ensures
        strings_view(r@) == announce_model(*raw),
{
    let mut urls: Vec<String> = Vec::new();
    if let Some(a) = &raw.announce {
        urls.push(a.clone());
    }
    let ghost primary = strings_view(urls@);
    assert(primary =~= match raw.announce {
        Some(a) => seq![a@],
        None => Seq::<Seq<char>>::empty(),
    });
    if let Some(tiers) = &raw.announce_list {
        let ghost tv = tiers_view(tiers@);
        let mut i: usize = 0;
        while i < tiers.len()
            invariant
                tv == tiers_view(tiers@),
                i <= tiers@.len(),
                strings_view(urls@) == primary + flatten_tiers(tv.take(i as int)),
            decreases tiers@.len() - i,
        {
            let tier = &tiers[i];
            let ghost before = strings_view(urls@);
            let mut j: usize = 0;
            while j < tier.len()
                invariant
                    i < tiers@.len(),
                    tier == tiers@[i as int],
                    j <= tier@.len(),
                    strings_view(urls@) == before + strings_view(tier@.take(j as int)),
                decreases tier@.len() - j,
            {
                let ghost prev = urls@;
                urls.push(tier[j].clone());
                assert(urls@ =~= prev.push(tier@[j as int]));
                assert(strings_view(urls@) =~= strings_view(prev).push(tier@[j as int]@));
                assert(strings_view(tier@.take(j + 1)) =~= strings_view(tier@.take(j as int)).push(
                    tier@[j as int]@,
                ));
                assert(strings_view(urls@) =~= before + strings_view(tier@.take(j + 1)));
                j = j + 1;
            }
            assert(tier@.take(j as int) =~= tier@);
            assert(tv.take(i + 1).drop_last() =~= tv.take(i as int));
            assert(strings_view(urls@) =~= primary + flatten_tiers(tv.take(i + 1)));
            i = i + 1;
        }
        assert(tv.take(i as int) =~= tv);
    } else {
        assert(strings_view(urls@) =~= announce_model(*raw));
    }
    urls
}

/// Builds the metadata that a decoded torrent describes, under identifier
/// `id`; fails with `MalformedMetadata` exactly where the torrent is not
/// conformant.
pub fn info_from_raw(raw: &RawTorrent, id: String) -> (r: Result<TorrentInfo, EngineError>)
    ensures
        match r {
            Ok(info) => conformant(*raw) && info@ == info_model(*raw, id@) && info@.sizes_agree(),
            Err(e) => !conformant(*raw) && e == EngineError::MalformedMetadata,
        },
{
    let (files, total) = match collect_files(raw) {
        Ok(p) => p,
        Err(e) => {
            return Err(e);
        },
    };
    let info = TorrentInfo {
        name: raw.name.clone(),
        size: total,
        info_hash: id,
        announce_urls: collect_announce(raw),
        files,
    };
    proof {
        lemma_sizes_agree(*raw, id@);
    }
    Ok(info)
}

/// The identifier of a decoded torrent: its info-dictionary digest in
/// lower-case hexadecimal.
pub fn identifier_of(raw: &RawTorrent) -> (r: String)
    ensures
        r@ == hex_of(raw.info_hash@),
{
    hex_encode(&raw.info_hash)
}

/// What reading the metadata bytes `b` gives: the described metadata under
/// the hex digest of its info dictionary, or `MalformedMetadata` (`None`),
/// also where the bytes nest deeper than `MAX_NESTING`.
pub open spec fn metadata_outcome(b: Seq<u8>) -> Option<InfoModel> {
    if !nesting_within_limit(b) {
        None
    } else {
        decoded_outcome(b)
    }
}

/// The metadata that decoding `b` describes, where the bytes nest within
/// the limit.
pub open spec fn decoded_outcome(b: Seq<u8>) -> Option<InfoModel> {
    match decoded_torrent(b) {
        Some(raw) => if conformant(raw) {
            Some(info_model(raw, hex_of(raw.info_hash@)))
        } else {
            None
        },
        None => None,
    }
}

/// Decodes a metadata file and derives its identifier.
pub fn read_metadata(bytes: &[u8]) -> (r: Result<TorrentInfo, EngineError>)
    ensures
        match r {
            Ok(info) => metadata_outcome(bytes@) == Some(info@) && info@.sizes_agree()
                && info@.info_hash.len() == 40,
            Err(e) => metadata_outcome(bytes@) is None && e == EngineError::MalformedMetadata,
        },
{
    if !check_nesting(bytes) {
        return Err(EngineError::MalformedMetadata);
    }
    match decode_torrent(bytes) {
        None => Err(EngineError::MalformedMetadata),
        Some(raw) => {
            proof {
                lemma_hex_len(raw.info_hash@);
            }
            let id = identifier_of(&raw);
            info_from_raw(&raw, id)
        },
    }
}

} // verus!

use torrent_engine::engine::{
    advance_stats, downloaded_for, TorrentEngine, TorrentEvent, TorrentStats, PROGRESS_SCALE,
};
use torrent_engine::error::EngineError;
use torrent_engine::magnet::identifier_from_uri;
use torrent_engine::metadata::read_metadata;
use torrent_engine::nesting::check_nesting;

const SINGLE: &[u8] = b"d8:announce20:http://t.example/ann4:infod6:lengthi100e4:name5:a.txt12:piece lengthi16384e6:pieces20:\xff\xff\xff\xff\xff\xff\xff\xff\xff\xff\xff\xff\xff\xff\xff\xff\xff\xff\xff\xffee";
const SINGLE_ID: &str = "57b64c80dfd92f3662b69a7b94a5d85f7af95954";
const MULTI: &[u8] = b"d8:announce6:http:a13:announce-listll6:http:bel6:http:c6:http:dee4:infod5:filesld6:lengthi10e4:pathl3:dir5:b.txteed6:lengthi25e4:pathl5:c.bineee4:name4:pack12:piece lengthi16384e6:pieces20:\xff\xff\xff\xff\xff\xff\xff\xff\xff\xff\xff\xff\xff\xff\xff\xff\xff\xff\xff\xffee";
const MULTI_ID: &str = "a587ec11c7e7bb3d44aff7d0a14bf8add6f2dadb";

fn engine() -> TorrentEngine {
    TorrentEngine::new("/tmp/downloads".to_string(), 10)
}

#[test]
fn magnet_yields_identifier_and_added_event() {
    let mut e = engine();
    let r = e.add_magnet("magnet:?xt=urn:btih:abc123&dn=name");
    assert_eq!(r, Ok("abc123".to_string()));
    let events = e.take_events();
    assert_eq!(events.len(), 1);
    match &events[0] {
        TorrentEvent::Added(id, info) => {
            assert_eq!(id, "abc123");
            assert_eq!(info.info_hash, "abc123");
            assert_eq!(info.size, 0);
            assert!(info.files.is_empty());
        }
        other => panic!("unexpected event {:?}", other),
    }
    assert_eq!(e.pending_events(), 0);
    assert_eq!(e.len(), 1);
}

#[test]
fn magnet_takes_first_btih_parameter() {
    let r = identifier_from_uri("magnet:?dn=x&xt=urn:sha1:zzz&xt=urn:btih:first&xt=urn:btih:second");
    assert_eq!(r, Ok("first".to_string()));
}

#[test]
fn magnet_query_is_percent_decoded() {
    let r = identifier_from_uri("magnet:?xt=urn%3Abtih%3AXYZ");
    assert_eq!(r, Ok("XYZ".to_string()));
}

#[test]
fn magnet_wrong_scheme_is_rejected() {
    let mut e = engine();
    assert_eq!(e.add_magnet("http://example.com/?xt=urn:btih:abc"), Err(EngineError::InvalidIdentifier));
    assert_eq!(e.len(), 0);
    assert_eq!(e.pending_events(), 0);
}

#[test]
fn magnet_without_xt_is_rejected() {
    let mut e = engine();
    assert_eq!(e.add_magnet("magnet:?dn=name"), Err(EngineError::InvalidIdentifier));
    assert_eq!(e.add_magnet("not a uri"), Err(EngineError::InvalidIdentifier));
    assert_eq!(e.len(), 0);
}

#[test]
fn single_file_identifier_is_deterministic() {
    let a = read_metadata(SINGLE).unwrap();
    let b = read_metadata(SINGLE).unwrap();
    assert_eq!(a.info_hash, SINGLE_ID);
    assert_eq!(a.info_hash, b.info_hash);
    assert_eq!(a.size, 100);
    assert_eq!(a.files.len(), 1);
    assert_eq!(a.files[0].size, 100);
    assert_eq!(a.announce_urls, vec!["http://t.example/ann".to_string()]);
}

#[test]
fn multi_file_sizes_and_order() {
    let info = read_metadata(MULTI).unwrap();
    assert_eq!(info.info_hash, MULTI_ID);
    assert_eq!(info.name, "pack");
    assert_eq!(info.size, 35);
    assert_eq!(info.files.len(), 2);
    assert_eq!(info.files[0].path, "dir/b.txt");
    assert_eq!(info.files[0].size, 10);
    assert_eq!(info.files[1].path, "c.bin");
    assert_eq!(info.files[1].size, 25);
    let urls: Vec<&str> = info.announce_urls.iter().map(|s| s.as_str()).collect();
    assert_eq!(urls, vec!["http:a", "http:b", "http:c", "http:d"]);
}

#[test]
fn malformed_metadata_is_rejected() {
    let mut e = engine();
    assert_eq!(e.add_torrent_file(b"not bencode"), Err(EngineError::MalformedMetadata));
    assert_eq!(e.add_torrent_file(&SINGLE[..SINGLE.len() - 3]), Err(EngineError::MalformedMetadata));
    assert_eq!(e.len(), 0);
    assert_eq!(e.pending_events(), 0);
}

#[test]
fn add_file_then_tick_reports_progress() {
    let mut e = engine();
    let id = e.add_torrent_file(SINGLE).unwrap();
    let events = e.take_events();
    assert_eq!(events.len(), 1);
    match &events[0] {
        TorrentEvent::Added(eid, info) => {
            assert_eq!(eid, &id);
            assert_eq!(info.name, "a.txt");
            assert_eq!(info.size, 100);
            assert_eq!(info.files.len(), 1);
            assert_eq!(info.files[0].path, "a.txt");
            assert_eq!(info.files[0].size, 100);
        }
        other => panic!("unexpected event {:?}", other),
    }
    e.report_progress();
    let events = e.take_events();
    assert_eq!(events.len(), 1);
    match &events[0] {
        TorrentEvent::Progress(eid, stats) => {
            assert_eq!(eid, &id);
            assert_eq!(stats.progress, 1);
            assert_eq!(stats.downloaded, 1);
            assert_eq!(stats.download_rate, 1024);
            assert_eq!(stats.upload_rate, 512);
            assert_eq!(stats.peers, 1);
            assert_eq!(stats.seeds, 1);
        }
        other => panic!("unexpected event {:?}", other),
    }
}

#[test]
fn duplicate_metadata_is_rejected() {
    let mut e = engine();
    assert_eq!(e.add_torrent_file(SINGLE), Ok(SINGLE_ID.to_string()));
    assert_eq!(e.add_torrent_file(SINGLE), Err(EngineError::DuplicateIdentifier));
    assert_eq!(e.len(), 1);
    assert_eq!(e.take_events().len(), 1);
}

#[test]
fn capacity_is_enforced() {
    let mut e = TorrentEngine::new(String::new(), 1);
    assert!(e.add_magnet("magnet:?xt=urn:btih:one").is_ok());
    assert_eq!(e.add_magnet("magnet:?xt=urn:btih:two"), Err(EngineError::CapacityExceeded));
    assert_eq!(e.len(), 1);
}

#[test]
fn pause_then_resume_restores_state() {
    let mut e = engine();
    let id = e.add_torrent_file(SINGLE).unwrap();
    e.report_progress();
    let before: TorrentStats = e.get(&id).unwrap().stats;
    e.take_events();
    assert_eq!(e.pause_torrent(&id), Ok(()));
    assert!(e.get(&id).unwrap().paused);
    e.report_progress();
    assert_eq!(e.get(&id).unwrap().stats, before);
    assert_eq!(e.resume_torrent(&id), Ok(()));
    let h = e.get(&id).unwrap();
    assert!(!h.paused);
    assert_eq!(h.stats, before);
    let events = e.take_events();
    assert_eq!(events.len(), 2);
    assert!(matches!(&events[0], TorrentEvent::Paused(x) if x == &id));
    assert!(matches!(&events[1], TorrentEvent::Resumed(x) if x == &id));
}

#[test]
fn pausing_twice_emits_paused_twice() {
    let mut e = engine();
    let id = e.add_magnet("magnet:?xt=urn:btih:p").unwrap();
    e.take_events();
    assert_eq!(e.pause_torrent(&id), Ok(()));
    assert_eq!(e.pause_torrent(&id), Ok(()));
    assert_eq!(e.take_events().len(), 2);
    assert_eq!(e.pause_torrent("missing"), Err(EngineError::NotFound));
    assert_eq!(e.resume_torrent("missing"), Err(EngineError::NotFound));
}

#[test]
fn completion_is_emitted_once_after_progress() {
    let mut e = engine();
    let id = e.add_torrent_file(SINGLE).unwrap();
    e.take_events();
    let mut last = 0;
    let mut completions = 0;
    for tick in 1..=120u32 {
        e.report_progress();
        let p = e.get(&id).unwrap().stats.progress;
        assert!(p >= last);
        last = p;
        let events = e.take_events();
        if tick < 100 {
            assert_eq!(events.len(), 1);
        } else if tick == 100 {
            assert_eq!(events.len(), 2);
            assert!(matches!(&events[0], TorrentEvent::Progress(_, s) if s.progress == PROGRESS_SCALE && s.downloaded == 100));
            assert!(matches!(&events[1], TorrentEvent::Completed(x) if x == &id));
        } else {
            assert!(events.is_empty());
        }
        completions += events.iter().filter(|ev| matches!(ev, TorrentEvent::Completed(_))).count();
    }
    assert_eq!(completions, 1);
    assert_eq!(last, PROGRESS_SCALE);
}

#[test]
fn remove_absent_and_present() {
    let mut e = engine();
    assert_eq!(e.remove_torrent("nope"), Err(EngineError::NotFound));
    let id = e.add_magnet("magnet:?xt=urn:btih:gone").unwrap();
    assert_eq!(e.remove_torrent(&id), Ok(()));
    assert!(e.get(&id).is_none());
    assert_eq!(e.len(), 0);
    assert_eq!(e.remove_torrent(&id), Err(EngineError::NotFound));
}

#[test]
fn downloaded_bytes_round_to_nearest() {
    assert_eq!(downloaded_for(100, 1), 1);
    assert_eq!(downloaded_for(150, 1), 2);
    assert_eq!(downloaded_for(149, 1), 1);
    assert_eq!(downloaded_for(u64::MAX, PROGRESS_SCALE), u64::MAX);
    assert_eq!(downloaded_for(0, 50), 0);
}

#[test]
fn stats_wrap_and_clamp() {
    let s = TorrentStats {
        downloaded: 0,
        uploaded: 7,
        download_rate: 1048576 - 1024,
        upload_rate: 524288 - 512,
        progress: 99,
        peers: 50,
        seeds: 20,
    };
    let r = advance_stats(s, 1000);
    assert_eq!(r.progress, 100);
    assert_eq!(r.downloaded, 1000);
    assert_eq!(r.uploaded, 7);
    assert_eq!(r.download_rate, 0);
    assert_eq!(r.upload_rate, 0);
    assert_eq!(r.peers, 1);
    assert_eq!(r.seeds, 1);
}

#[test]
fn download_path_is_kept() {
    let e = engine();
    assert_eq!(e.download_path(), "/tmp/downloads");
}

#[test]
fn deeply_nested_metadata_is_rejected_without_decoding() {
    let mut bytes = b"d4:infol".to_vec();
    bytes.extend(std::iter::repeat(b'l').take(100_000));
    assert!(!check_nesting(&bytes));
    let mut e = engine();
    assert_eq!(e.add_torrent_file(&bytes), Err(EngineError::MalformedMetadata));
    assert_eq!(e.len(), 0);
}

#[test]
fn nesting_scan_skips_string_payloads() {
    assert!(check_nesting(SINGLE));
    assert!(check_nesting(MULTI));
    assert!(check_nesting(b"d3:lll3:ddde"));
    assert!(check_nesting(b"li1eli-2eee"));
    let deep: Vec<u8> = std::iter::repeat(b'l').take(64).chain(std::iter::repeat(b'e').take(64)).collect();
    assert!(check_nesting(&deep));
    let deeper: Vec<u8> = std::iter::repeat(b'l').take(65).chain(std::iter::repeat(b'e').take(65)).collect();
    assert!(!check_nesting(&deeper));
    assert!(!check_nesting(b"e"));
    assert!(!check_nesting(b"lxe"));
    assert!(!check_nesting(b"99999999999:"));
}

#[test]
fn file_identifier_has_forty_hex_digits() {
    let info = read_metadata(MULTI).unwrap();
    assert_eq!(info.info_hash.len(), 40);
    assert!(info.info_hash.chars().all(|c| c.is_ascii_hexdigit() && !c.is_ascii_uppercase()));
}

use pjsekai_soundgen_core::server::{clip_files, read_clip_file, EffectError, FetchError, Server};
use pjsekai_soundgen_core::sonolus::{EffectClip, EffectData, Srl};
use std::io::Write;

#[test]
fn guess_picks_server_by_prefix() {
    let s = Server::guess("frpt-abc").unwrap();
    assert_eq!(s.id, "potato_leaves");
    assert_eq!(s.name, "Potato Leaves");
    assert_eq!(s.color, 0x88cb7f);
    assert_eq!(s.url, "https://ptlv.milkbun.org");
    assert_eq!(Server::guess("chcy-1").unwrap().url, "https://cc.milkbun.org/");
    assert_eq!(Server::guess("UnCh-1").unwrap().id, "untitledCharts");
    assert_eq!(Server::guess("coconut-next-sekai-1").unwrap().id, "next_sekai");
    assert_eq!(Server::guess("sss-1").unwrap().name, "Sbuga's Sonolus Server");
    assert_eq!(Server::guess("local-chart").unwrap().url, "http://localhost:3939");
}

#[test]
fn guess_rejects_unknown_prefix() {
    assert!(matches!(Server::guess("xyz-1"), Err(FetchError::UnknownServer)));
    assert!(matches!(Server::guess("frpt"), Err(FetchError::UnknownServer)));
}

#[test]
fn merge_url_keeps_absolute_urls() {
    let s = Server::guess("chcy-1").unwrap();
    assert_eq!(s.merge_url("https://example.com/a.mp3"), "https://example.com/a.mp3");
}

#[test]
fn merge_url_joins_relative_paths_without_double_slash() {
    let s = Server::guess("chcy-1").unwrap();
    assert_eq!(s.merge_url("/sonolus/a"), "https://cc.milkbun.org/sonolus/a");
    assert_eq!(s.merge_url("b"), "https://cc.milkbun.orgb");
    let p = Server::guess("frpt-1").unwrap();
    assert_eq!(p.merge_url("/x"), "https://ptlv.milkbun.org/x");
}

#[test]
fn cache_key_prefers_hash_then_url() {
    let s = Server::guess("frpt-1").unwrap();
    let with_hash = Srl { hash: Some("abc".to_string()), url: "/u".to_string() };
    let without_hash = Srl { hash: None, url: "/u".to_string() };
    assert_eq!(s.cache_key(&with_hash), "potato_leaves-abc");
    assert_eq!(s.cache_key(&without_hash), "potato_leaves-/u");
}

#[test]
fn score_sync_is_not_cached_and_drops_local_prefix() {
    let local = Server::guess("local-song").unwrap();
    assert!(!local.uses_cache());
    assert_eq!(local.api_level_name("local-song"), "song");
    assert_eq!(local.level_info_url("local-song"), "http://localhost:3939/sonolus/levels/song");
    let remote = Server::guess("frpt-1").unwrap();
    assert!(remote.uses_cache());
    assert_eq!(remote.api_level_name("frpt-1"), "frpt-1");
    assert_eq!(remote.level_info_url("frpt-1"), "https://ptlv.milkbun.org/sonolus/levels/frpt-1");
}

#[test]
fn decompress_level_data_inflates_gzip() {
    let mut encoder = flate2::write::GzEncoder::new(Vec::new(), flate2::Compression::default());
    encoder.write_all(b"{\"entities\": []}").unwrap();
    let compressed = encoder.finish().unwrap();
    let data = Server::decompress_level_data(&compressed).unwrap();
    assert_eq!(data, b"{\"entities\": []}".to_vec());
}

#[test]
fn decompress_rejects_non_gzip() {
    assert!(matches!(Server::decompress_level_data(b"not gzip"), Err(FetchError::Decompress(_))));
    assert!(matches!(Server::decompress_effect_data(b"not gzip"), Err(EffectError::Decompress(_))));
}

#[test]
fn read_clip_file_reads_named_file_from_archive() {
    let mut writer = zip::ZipWriter::new(std::io::Cursor::new(Vec::new()));
    writer.start_file("tap.mp3", zip::write::SimpleFileOptions::default()).unwrap();
    writer.write_all(&[1, 2, 3, 4]).unwrap();
    let bytes = writer.finish().unwrap().into_inner();
    let mut archive = Server::open_effect_archive(bytes).unwrap();
    assert_eq!(read_clip_file(&mut archive, "tap.mp3").unwrap(), vec![1, 2, 3, 4]);
    assert!(matches!(read_clip_file(&mut archive, "missing.mp3"), Err(EffectError::ClipNotFound)));
}

#[test]
fn open_effect_archive_rejects_non_zip() {
    assert!(matches!(Server::open_effect_archive(vec![0, 1, 2]), Err(EffectError::Archive(_))));
}

#[test]
fn clip_files_reads_every_clip_in_order() {
    let mut writer = zip::ZipWriter::new(std::io::Cursor::new(Vec::new()));
    writer.start_file("a.mp3", zip::write::SimpleFileOptions::default()).unwrap();
    writer.write_all(&[9]).unwrap();
    writer.start_file("b.mp3", zip::write::SimpleFileOptions::default()).unwrap();
    writer.write_all(&[8, 7]).unwrap();
    let bytes = writer.finish().unwrap().into_inner();
    let mut archive = Server::open_effect_archive(bytes).unwrap();
    let data = EffectData {
        clips: vec![
            EffectClip { name: "#HOLD".to_string(), filename: "b.mp3".to_string() },
            EffectClip { name: "#PERFECT".to_string(), filename: "a.mp3".to_string() },
        ],
    };
    let files = clip_files(&data, &mut archive).unwrap();
    assert_eq!(files, vec![("#HOLD".to_string(), vec![8, 7]), ("#PERFECT".to_string(), vec![9])]);
    let missing = EffectData { clips: vec![EffectClip { name: "x".to_string(), filename: "none".to_string() }] };
    assert!(matches!(clip_files(&missing, &mut archive), Err(EffectError::ClipNotFound)));
}

#[test]
fn a_clip_whose_entry_does_not_read_is_unreadable_not_missing() {
    let mut writer = zip::ZipWriter::new(std::io::Cursor::new(Vec::new()));
    let stored = zip::write::SimpleFileOptions::default().compression_method(zip::CompressionMethod::Stored);
    writer.start_file("tap.mp3", stored).unwrap();
    writer.write_all(b"CLIPDATA").unwrap();
    let mut bytes = writer.finish().unwrap().into_inner();
    let at = bytes.windows(8).position(|w| w == b"CLIPDATA").unwrap();
    bytes[at] = b'X';
    let mut archive = Server::open_effect_archive(bytes).unwrap();
    assert!(matches!(read_clip_file(&mut archive, "tap.mp3"), Err(EffectError::ClipUnreadable)));
    let data = EffectData {
        clips: vec![
            EffectClip { name: "#PERFECT".to_string(), filename: "tap.mp3".to_string() },
            EffectClip { name: "#HOLD".to_string(), filename: "none".to_string() },
        ],
    };
    assert!(matches!(clip_files(&data, &mut archive), Err(EffectError::ClipUnreadable)));
}

//! Sonolus servers: which server a level id belongs to, how resource paths
//! become URLs, cache keys, and the decompression of downloaded data.
use vstd::prelude::*;
use crate::sonolus::{EffectClip, EffectData, Srl};
use crate::text::{concat, has_prefix, starts_with, str_eq, to_string, trim_end_slashes, trim_end_slashes_spec};
use vstd::string::StrSliceExecFns;
use std::io::Read;

verus! {

/// A Sonolus server: an id, a display name, a display color (`0xRRGGBB`) and
/// the base URL.
#[derive(Debug, Clone)]
pub struct Server {
    pub id: String,
    pub name: String,
    pub color: i32,
    pub url: String,
}

/// Abstract value of a `Server`.
pub ghost struct ServerView {
    pub id: Seq<char>,
    pub name: Seq<char>,
    pub color: i32,
    pub url: Seq<char>,
}

impl View for Server {
    type V = ServerView;

    open spec fn view(&self) -> ServerView {
        ServerView { id: self.id@, name: self.name@, color: self.color, url: self.url@ }
    }
}

/// Why a level cannot be fetched.
#[derive(Debug)]
pub enum FetchError {
    /// No known server uses the prefix of the level id.
    UnknownServer,
    /// Downloaded data is not valid gzip.
    Decompress(std::io::Error),
}

/// Why an effect package cannot be read.
#[derive(Debug)]
pub enum EffectError {
    /// The audio archive is not a readable zip archive.
    Archive(zip::result::ZipError),
    /// The clip list is not valid gzip.
    Decompress(std::io::Error),
    /// The archive has no file of a clip's file name.
    ClipNotFound,
    /// A clip's file cannot be read from the archive.
    ClipUnreadable,
}

/// `std::io::Error`, carried through as an opaque value.
#[verifier::external_type_specification]
#[verifier::external_body]
pub struct ExIoError(std::io::Error);

/// `zip::result::ZipError`, carried through as an opaque value.
#[verifier::external_type_specification]
#[verifier::external_body]
pub struct ExZipError(zip::result::ZipError);

/// `std::io::Cursor`, an in-memory reader, opaque.
#[verifier::external_type_specification]
#[verifier::external_body]
#[verifier::reject_recursive_types(T)]
pub struct ExCursor<T>(std::io::Cursor<T>);

/// `zip::ZipArchive`, opaque; its files are named by `zip_entries`.
#[verifier::external_type_specification]
#[verifier::external_body]
#[verifier::reject_recursive_types(R)]
pub struct ExZipArchive<R>(zip::ZipArchive<R>);

/// What gzip-decompressing `data` gives: the decompressed bytes, or `None`
/// when `data` is not a complete, valid gzip stream.
pub uninterp spec fn gunzip_result(data: Seq<u8>) -> Option<Seq<u8>>;

/// The readable files of a zip archive: each name that
/// `zip::ZipArchive::by_name` opens and whose entry then reads to its end
/// (the content reader checks the CRC), with the bytes so read.
pub uninterp spec fn zip_entries(archive: zip::ZipArchive<std::io::Cursor<Vec<u8>>>) -> Map<Seq<char>, Seq<u8>>;

/// The names whose entry `zip::ZipArchive::by_name` opens in an archive (the
/// name is in the archive's index and its local header reads); reading such
/// an entry may still fail.
pub uninterp spec fn zip_openable(archive: zip::ZipArchive<std::io::Cursor<Vec<u8>>>) -> Set<Seq<char>>;

/// Decompresses a gzip stream by reading a `flate2::read::GzDecoder` over
/// `data` to its end. Claimed: the result is a function of `data` alone,
/// `gunzip_result(data)`; an error exactly when that is `None`.
#[verifier::external_body]
fn gunzip(data: &[u8]) -> (r: Result<Vec<u8>, std::io::Error>)
    ensures
        match r {
            Ok(v) => gunzip_result(data@) == Some(v@),
            Err(_) => gunzip_result(data@) is None,
        },
{
    let mut buf = Vec::new();
    flate2::read::GzDecoder::new(data).read_to_end(&mut buf).map(|_| buf)
}

/// What opening the in-memory archive `bytes` gives: its files, each name
/// with its decompressed content, or `None` when `bytes` is not an archive
/// that opens.
pub uninterp spec fn zip_archive_files(bytes: Seq<u8>) -> Option<Map<Seq<char>, Seq<u8>>>;

/// Opens a zip archive held in memory with `zip::ZipArchive::new` over a
/// `std::io::Cursor`. Claimed: whether it opens, and the files of the opened
/// archive, are a function of `bytes` alone, `zip_archive_files(bytes)`.
#[verifier::external_body]
fn open_zip(bytes: Vec<u8>) -> (r: Result<zip::ZipArchive<std::io::Cursor<Vec<u8>>>, zip::result::ZipError>)
    ensures
        match r {
            Ok(a) => zip_archive_files(bytes@) == Some(zip_entries(a)),
            Err(_) => zip_archive_files(bytes@) is None,
        },
{
    zip::ZipArchive::new(std::io::Cursor::new(bytes))
}

/// Reads the file `name` of an archive with `zip::ZipArchive::by_name` and
/// reads it to its end. The outer error is that of `by_name` (no such file,
/// or an entry that does not open), the inner one that of reading. Claimed:
/// the archive's files do not change; `by_name` succeeds exactly when `name`
/// is one of the names it opens (`zip_openable`); both steps succeed exactly
/// when `name` is one of the readable files (`zip_entries`), giving its
/// content.
#[verifier::external_body]
fn read_zip_file(archive: &mut zip::ZipArchive<std::io::Cursor<Vec<u8>>>, name: &str) -> (r: Result<
    Result<Vec<u8>, std::io::Error>,
    zip::result::ZipError,
>)
    ensures
        zip_entries(*final(archive)) == zip_entries(*old(archive)),
        zip_openable(*final(archive)) == zip_openable(*old(archive)),
        match r {
            Ok(Ok(v)) => zip_entries(*old(archive)).contains_key(name@) && zip_entries(*old(archive))[name@] == v@,
            Ok(Err(_)) => zip_openable(*old(archive)).contains(name@) && !zip_entries(*old(archive)).contains_key(
                name@,
            ),
            Err(_) => !zip_openable(*old(archive)).contains(name@) && !zip_entries(*old(archive)).contains_key(
                name@,
            ),
        },
{
    match archive.by_name(name) {
        Ok(mut file) => {
            let mut buf = Vec::new();
            Ok(file.read_to_end(&mut buf).map(|_| buf))
        },
        Err(e) => Err(e),
    }
}

/// The server of a level id, chosen by the id's prefix, as
/// (id, name, color, url).
pub open spec fn server_for(level_name: Seq<char>) -> Option<ServerView> {
    if has_prefix(level_name, "frpt-"@) {
        Some(ServerView { id: "potato_leaves"@, name: "Potato Leaves"@, color: 0x88cb7f, url: "https://ptlv.milkbun.org"@ })
    } else if has_prefix(level_name, "chcy-"@) {
        Some(ServerView { id: "chart_cyanvas"@, name: "Chart Cyanvas"@, color: 0x83ccd2, url: "https://cc.milkbun.org/"@ })
    } else if has_prefix(level_name, "UnCh-"@) {
        Some(ServerView { id: "untitledCharts"@, name: "UntitledCharts"@, color: 0x7765da, url: "https://untitledcharts.com"@ })
    } else if has_prefix(level_name, "coconut-next-sekai-"@) {
        Some(ServerView { id: "next_sekai"@, name: "Next SEKAI"@, color: 0x02cbbd, url: "https://coconut.sonolus.com/next-sekai"@ })
    } else if has_prefix(level_name, "sss-"@) {
        Some(ServerView { id: "sbuga_sonolus"@, name: "Sbuga's Sonolus Server"@, color: 0xe0f2fe, url: "https://sonolus.sbuga.com"@ })
    } else if has_prefix(level_name, "local-"@) {
        Some(ServerView { id: "ScoreSync"@, name: "ScoreSync"@, color: 0x545454, url: "http://localhost:3939"@ })
    } else {
        None
    }
}

/// The URL of resource `path` on a server with base URL `base`: `path` itself
/// when it begins with `http`, else the base without trailing slashes
/// followed by `path`.
pub open spec fn merge_url_spec(base: Seq<char>, path: Seq<char>) -> Seq<char> {
    if has_prefix(path, "http"@) {
        path
    } else {
        trim_end_slashes_spec(base) + path
    }
}

/// The id of the local ScoreSync server, which is never cached and whose level
/// ids carry a `local-` prefix that its API does not know.
pub open spec fn local_server_id() -> Seq<char> {
    "ScoreSync"@
}

/// The level name that a server's API is asked for.
pub open spec fn api_level_name_spec(server_id: Seq<char>, level_name: Seq<char>) -> Seq<char> {
    if server_id == local_server_id() && has_prefix(level_name, "local-"@) {
        level_name.subrange(("local-"@).len() as int, level_name.len() as int)
    } else {
        level_name
    }
}

fn make_server(id: &str, name: &str, color: i32, url: &str) -> (s: Server)
    ensures
        s@ == (ServerView { id: id@, name: name@, color, url: url@ }),
{
    Server { id: to_string(id), name: to_string(name), color, url: to_string(url) }
}

impl Server {
    /// The server that a level id belongs to, by its prefix: `frpt-`,
    /// `chcy-`, `UnCh-`, `coconut-next-sekai-`, `sss-` or `local-`.
    pub fn guess(level_name: &str) -> (r: Result<Server, FetchError>)
        ensures
            match r {
                Ok(s) => server_for(level_name@) == Some(s@),
                Err(e) => server_for(level_name@) is None && e is UnknownServer,
            },
    {
        if starts_with(level_name, "frpt-") {
            Ok(make_server("potato_leaves", "Potato Leaves", 0x88cb7f, "https://ptlv.milkbun.org"))
        } else if starts_with(level_name, "chcy-") {
            Ok(make_server("chart_cyanvas", "Chart Cyanvas", 0x83ccd2, "https://cc.milkbun.org/"))
        } else if starts_with(level_name, "UnCh-") {
            Ok(make_server("untitledCharts", "UntitledCharts", 0x7765da, "https://untitledcharts.com"))
        } else if starts_with(level_name, "coconut-next-sekai-") {
            Ok(make_server("next_sekai", "Next SEKAI", 0x02cbbd, "https://coconut.sonolus.com/next-sekai"))
        } else if starts_with(level_name, "sss-") {
            Ok(make_server("sbuga_sonolus", "Sbuga's Sonolus Server", 0xe0f2fe, "https://sonolus.sbuga.com"))
        } else if starts_with(level_name, "local-") {
            Ok(make_server("ScoreSync", "ScoreSync", 0x545454, "http://localhost:3939"))
        } else {
            Err(FetchError::UnknownServer)
        }
    }

    /// The URL of resource `path` on this server (see `merge_url_spec`).
    pub fn merge_url(&self, path: &str) -> (r: String)
        ensures
            r@ == merge_url_spec(self.url@, path@),
    {
        if starts_with(path, "http") {
            to_string(path)
        } else {
            let base = trim_end_slashes(self.url.as_str());
            concat(base.as_str(), path)
        }
    }

    /// Whether downloads from this server are cached: all but ScoreSync.
    pub fn uses_cache(&self) -> (r: bool)
        ensures
            r == (self.id@ != local_server_id()),
    {
        !str_eq(self.id.as_str(), "ScoreSync")
    }

    /// The cache key of a resource: the server id, `-`, and the resource's
    /// hash, or its URL when it has no hash.
    pub fn cache_key(&self, srl: &Srl) -> (r: String)
        ensures
            r@ == self.id@ + "-"@ + match srl.hash {
                Some(h) => h@,
                None => srl.url@,
            },
    {
        let prefix = concat(self.id.as_str(), "-");
        match &srl.hash {
            Some(h) => concat(prefix.as_str(), h.as_str()),
            None => concat(prefix.as_str(), srl.url.as_str()),
        }
    }

    /// The level name to ask this server's API for: for ScoreSync, a
    /// `local-` prefix is dropped.
    pub fn api_level_name(&self, level_name: &str) -> (r: String)
        ensures
            r@ == api_level_name_spec(self.id@, level_name@),
    {
        if str_eq(self.id.as_str(), "ScoreSync") && starts_with(level_name, "local-") {
            proof {
                reveal_strlit("local-");
            }
            let n = level_name.unicode_len();
            to_string(level_name.substring_char(6, n))
        } else {
            to_string(level_name)
        }
    }

    /// The URL of a level's information: the base URL, `/sonolus/levels/`,
    /// and the API's level name.
    pub fn level_info_url(&self, level_name: &str) -> (r: String)
        ensures
            r@ == self.url@ + "/sonolus/levels/"@ + api_level_name_spec(self.id@, level_name@),
    {
        let name = self.api_level_name(level_name);
        let base = concat(self.url.as_str(), "/sonolus/levels/");
        concat(base.as_str(), name.as_str())
    }

    /// Decompresses downloaded chart data (gzip).
    pub fn decompress_level_data(compressed: &[u8]) -> (r: Result<Vec<u8>, FetchError>)
        ensures
            match r {
                Ok(v) => gunzip_result(compressed@) == Some(v@),
                Err(e) => gunzip_result(compressed@) is None && e is Decompress,
            },
    {
        match gunzip(compressed) {
            Ok(v) => Ok(v),
            Err(e) => Err(FetchError::Decompress(e)),
        }
    }

    /// Decompresses a downloaded clip list (gzip).
    pub fn decompress_effect_data(compressed: &[u8]) -> (r: Result<Vec<u8>, EffectError>)
        ensures
            match r {
                Ok(v) => gunzip_result(compressed@) == Some(v@),
                Err(e) => gunzip_result(compressed@) is None && e is Decompress,
            },
    {
        match gunzip(compressed) {
            Ok(v) => Ok(v),
            Err(e) => Err(EffectError::Decompress(e)),
        }
    }

    /// Opens a downloaded audio archive (zip): it opens exactly when
    /// `zip_archive_files(bytes)` is `Some`, and then holds those files.
    pub fn open_effect_archive(bytes: Vec<u8>) -> (r: Result<zip::ZipArchive<std::io::Cursor<Vec<u8>>>, EffectError>)
        ensures
            match r {
                Ok(a) => zip_archive_files(bytes@) == Some(zip_entries(a)),
                Err(e) => zip_archive_files(bytes@) is None && e is Archive,
            },
    {
        match open_zip(bytes) {
            Ok(a) => Ok(a),
            Err(e) => Err(EffectError::Archive(e)),
        }
    }
}

/// A resource path that begins with `http` (an `http://` or `https://` URL)
/// is used unchanged, whatever the server; any other path is appended to the
/// server's URL with its trailing slashes removed.
pub proof fn lemma_merge_url_absolute(base: Seq<char>, path: Seq<char>)
    ensures
        path.len() >= 4 && path.subrange(0, 4) == seq!['h', 't', 't', 'p'] ==> merge_url_spec(base, path)
            == path,
        !(path.len() >= 4 && path.subrange(0, 4) == seq!['h', 't', 't', 'p']) ==> merge_url_spec(base, path)
            == trim_end_slashes_spec(base) + path,
{
    reveal_strlit("http");
    assert("http"@ =~= seq!['h', 't', 't', 'p']);
}

/// For a level id of the ScoreSync server, the name that its API is asked
/// for is the id without its `local-` prefix: putting the prefix back gives
/// the id.
pub proof fn lemma_local_level_name(level_name: Seq<char>)
    requires
        server_for(level_name) matches Some(s) && s.id == local_server_id(),
    ensures
        "local-"@ + api_level_name_spec(local_server_id(), level_name) == level_name,
{
    reveal_strlit("local-");
    reveal_strlit("ScoreSync");
    reveal_strlit("potato_leaves");
    reveal_strlit("chart_cyanvas");
    reveal_strlit("untitledCharts");
    reveal_strlit("next_sekai");
    reveal_strlit("sbuga_sonolus");
    assert(has_prefix(level_name, "local-"@)) by {
        if !has_prefix(level_name, "local-"@) {
            assert(server_for(level_name) is None || server_for(level_name).unwrap().id != local_server_id()) by {
                if has_prefix(level_name, "frpt-"@) {
                    assert("potato_leaves"@[0] != "ScoreSync"@[0]);
                } else if has_prefix(level_name, "chcy-"@) {
                    assert("chart_cyanvas"@[0] != "ScoreSync"@[0]);
                } else if has_prefix(level_name, "UnCh-"@) {
                    assert("untitledCharts"@[0] != "ScoreSync"@[0]);
                } else if has_prefix(level_name, "coconut-next-sekai-"@) {
                    assert("next_sekai"@[0] != "ScoreSync"@[0]);
                } else if has_prefix(level_name, "sss-"@) {
                    assert("sbuga_sonolus"@[0] != "ScoreSync"@[0]);
                }
            }
        }
    }
    let n = ("local-"@).len() as int;
    assert(level_name.subrange(0, n) == "local-"@);
    assert("local-"@ + level_name.subrange(n, level_name.len() as int) =~= level_name);
}

/// Reads the file of a clip from an audio archive. It succeeds exactly when
/// the name is one of the archive's readable files, with the file's content;
/// otherwise it fails with `ClipNotFound` when the archive opens no entry of
/// that name and `ClipUnreadable` when the entry opens but cannot be read to
/// its end.
pub fn read_clip_file(archive: &mut zip::ZipArchive<std::io::Cursor<Vec<u8>>>, filename: &str) -> (r: Result<Vec<u8>, EffectError>)
    ensures
        zip_entries(*final(archive)) == zip_entries(*old(archive)),
        zip_openable(*final(archive)) == zip_openable(*old(archive)),
        match r {
            Ok(v) => zip_entries(*old(archive)).contains_key(filename@) && zip_entries(*old(archive))[filename@] == v@,
            Err(e) => {
                &&& !zip_entries(*old(archive)).contains_key(filename@)
                &&& e is ClipNotFound || e is ClipUnreadable
                &&& e is ClipNotFound <==> !zip_openable(*old(archive)).contains(filename@)
            },
        },
{
    match read_zip_file(archive, filename) {
        Ok(Ok(v)) => Ok(v),
        Ok(Err(_)) => Err(EffectError::ClipUnreadable),
        Err(_) => Err(EffectError::ClipNotFound),
    }
}

/// The files of a clip list, read from the audio archive: each clip's name
/// with its file's bytes, in list order. It succeeds exactly when every
/// clip's file is one of the archive's readable files; otherwise reading
/// stops at the first clip whose file is not, with `ClipNotFound` when the
/// archive opens no entry of that file's name and `ClipUnreadable` when it
/// opens one that does not read to its end.
pub fn clip_files(data: &EffectData, archive: &mut zip::ZipArchive<std::io::Cursor<Vec<u8>>>) -> (r: Result<
    Vec<(String, Vec<u8>)>,
    EffectError,
>)
    ensures
        zip_entries(*final(archive)) == zip_entries(*old(archive)),
        zip_openable(*final(archive)) == zip_openable(*old(archive)),
        match r {
            Ok(files) => {
                &&& files@.len() == data.clips@.len()
                &&& forall|i: int|
                    0 <= i < files@.len() ==> {
                        let c = #[trigger] data.clips@[i];
                        &&& files@[i].0@ == c.name@
                        &&& zip_entries(*old(archive)).contains_key(c.filename@)
                        &&& files@[i].1@ == zip_entries(*old(archive))[c.filename@]
                    }
            },
            Err(e) => {
                &&& e is ClipNotFound || e is ClipUnreadable
                &&& exists|i: int|
                    0 <= i < data.clips@.len() && !zip_entries(*old(archive)).contains_key(
                        (#[trigger] data.clips@[i]).filename@,
                    ) && (e is ClipNotFound <==> !zip_openable(*old(archive)).contains(data.clips@[i].filename@))
                        && forall|j: int|
                        0 <= j < i ==> zip_entries(*old(archive)).contains_key((#[trigger] data.clips@[j]).filename@)
            },
        },
        r is Ok <==> forall|i: int|
            0 <= i < data.clips@.len() ==> zip_entries(*old(archive)).contains_key((#[trigger] data.clips@[i]).filename@),
{
    let ghost entries = zip_entries(*archive);
    let mut files: Vec<(String, Vec<u8>)> = Vec::new();
    let mut i: usize = 0;
    while i < data.clips.len()
        invariant
            i <= data.clips.len(),
            zip_entries(*archive) == entries,
            entries == zip_entries(*old(archive)),
            zip_openable(*archive) == zip_openable(*old(archive)),
            files@.len() == i,
            forall|k: int|
                0 <= k < i ==> {
                    let c = #[trigger] data.clips@[k];
                    &&& files@[k].0@ == c.name@
                    &&& entries.contains_key(c.filename@)
                    &&& files@[k].1@ == entries[c.filename@]
                },
        decreases data.clips.len() - i,
    {
        let clip: &EffectClip = &data.clips[i];
        let bytes = match read_clip_file(archive, clip.filename.as_str()) {
            Ok(b) => b,
            Err(e) => {
                assert(data.clips@[i as int] == *clip);
                return Err(e);
            },
        };
        files.push((clip.name.clone(), bytes));
        i = i + 1;
    }
    Ok(files)
}

} // verus!

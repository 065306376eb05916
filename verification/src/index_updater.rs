//! Decisions of the index updater: which release manifests are understood, where the
//! artifact lives, whether a download is needed, whether what arrived is the announced
//! index, and how long to wait before retrying a failed first download.

use vstd::prelude::*;

use crate::error::AppError;
use crate::json::{decimal, decimal_text};
use crate::text::{
    chars_of, lower_char, lower_seq, push_all, slice_chars, string_of, trim, trim_chars,
};

verus! {

/// The release manifest: the JSON document published next to each index build.
#[derive(Debug)]
pub struct Manifest {
    pub schema_version: u32,
    pub build_date: String,
    pub index: ManifestIndex,
}

/// The index artifact a manifest announces.
#[derive(Debug)]
pub struct ManifestIndex {
    /// File name (relative to the manifest) or absolute URL of the compressed index.
    pub file: String,
    /// SHA-256 of the compressed file, hex.
    pub sha256: String,
    pub size: u64,
    pub uncompressed_size: u64,
    /// SHA-256 of the index itself, hex.
    pub uncompressed_sha256: String,
}

/// The only manifest layout this server understands.
pub const MANIFEST_SCHEMA_VERSION: u32 = 1;

/// Longest wait between attempts of the first download, in seconds.
pub const MAX_RETRY_SECS: u64 = 300;

/// Shortest refresh interval, in seconds.
pub const MIN_UPDATE_INTERVAL_SECS: u64 = 60;

/// `e` is an `Internal` error whose message is `m`.
pub open spec fn is_internal(e: AppError, m: Seq<char>) -> bool {
    e matches AppError::Internal(s) && s@ == m
}

/// Accepts a manifest of the understood layout.
pub fn check_manifest(m: &Manifest) -> (r: Result<(), AppError>)
    ensures
        m.schema_version == MANIFEST_SCHEMA_VERSION <==> r is Ok,
        r matches Err(e) ==> is_internal(
            e,
            "unsupported index schema_version "@ + decimal(m.schema_version as nat),
        ),
{
    if m.schema_version == MANIFEST_SCHEMA_VERSION {
        return Ok(());
    }
    let mut msg = "unsupported index schema_version ".to_owned();
    push_all(&mut msg, &decimal_text(m.schema_version as u128));
    Err(AppError::Internal(msg))
}

/// `s` begins with `p`.
pub open spec fn starts_with(s: Seq<char>, p: Seq<char>) -> bool {
    p.len() <= s.len() && s.take(p.len() as int) == p
}

/// Position of the last `x` in `s`.
pub open spec fn last_index(s: Seq<char>, x: char) -> Option<int>
    decreases s.len(),
{
    if s.len() == 0 {
        None
    } else if s.last() == x {
        Some(s.len() - 1)
    } else {
        last_index(s.drop_last(), x)
    }
}

/// Where the artifact is: an absolute `http(s)://` name as it is, otherwise the name
/// next to the manifest (in its directory).
pub open spec fn asset_url_of(manifest_url: Seq<char>, file: Seq<char>) -> Seq<char> {
    if starts_with(file, "http://"@) || starts_with(file, "https://"@) {
        file
    } else {
        match last_index(manifest_url, '/') {
            Some(i) => manifest_url.take(i) + seq!['/'] + file,
            None => file,
        }
    }
}

fn starts_with_exec(s: &Vec<char>, p: &str) -> (r: bool)
    ensures
        r == starts_with(s@, p@),
{
    let pc = chars_of(p);
    if pc.len() > s.len() {
        return false;
    }
    let mut i: usize = 0;
    while i < pc.len()
        invariant
            i <= pc.len() <= s.len(),
            pc@ == p@,
            forall|j: int| 0 <= j < i ==> s@[j] == pc@[j],
        decreases pc.len() - i,
    {
        if s[i] != pc[i] {
            assert(s@.take(pc.len() as int)[i as int] != p@[i as int]);
            return false;
        }
        i = i + 1;
    }
    assert(s@.take(pc.len() as int) =~= p@);
    true
}

fn last_index_exec(s: &Vec<char>, x: char) -> (r: Option<usize>)
    ensures
        r matches Some(i) ==> i < s.len() && last_index(s@, x) == Some(i as int),
        r is None ==> last_index(s@, x) is None,
{
    let mut n: usize = s.len();
    assert(s@.take(n as int) =~= s@);
    while n > 0
        invariant
            n <= s.len(),
            last_index(s@, x) == last_index(s@.take(n as int), x),
        decreases n,
    {
        let ghost t = s@.take(n as int);
        assert(t.last() == s@[n - 1]);
        assert(t.drop_last() =~= s@.take(n - 1));
        if s[n - 1] == x {
            return Some(n - 1);
        }
        n = n - 1;
    }
    None
}

/// The URL of the artifact named `file` in the manifest at `manifest_url`.
pub fn asset_url(manifest_url: &str, file: &str) -> (r: String)
    ensures
        r@ == asset_url_of(manifest_url@, file@),
{
    let f = chars_of(file);
    if starts_with_exec(&f, "http://") || starts_with_exec(&f, "https://") {
        return string_of(&f);
    }
    let m = chars_of(manifest_url);
    match last_index_exec(&m, '/') {
        Some(i) => {
            let mut out = string_of(&slice_chars(&m, 0, i));
            push_all(&mut out, &chars_of("/"));
            push_all(&mut out, &f);
            proof {
                reveal_strlit("/");
                assert(m@.subrange(0, i as int) =~= m@.take(i as int));
            }
            out
        },
        None => string_of(&f),
    }
}

/// What a manifest asks of the updater.
#[derive(Debug)]
pub enum UpdatePlan {
    /// The open index already has the announced content.
    UpToDate,
    /// Download `url`; the result must hash to `sha256`, and its decompressed content to
    /// `uncompressed_sha256` (both lower-case hex).
    Download { url: String, sha256: String, uncompressed_sha256: String },
}

fn lower_text(s: &str) -> (r: String)
    ensures
        r@ == lower_seq(s@),
{
    let cs = chars_of(s);
    let mut out: Vec<char> = Vec::new();
    let mut i: usize = 0;
    while i < cs.len()
        invariant
            i <= cs.len(),
            cs@ == s@,
            out@ == lower_seq(cs@.take(i as int)),
        decreases cs.len() - i,
    {
        out.push(lower_char(cs[i]));
        i = i + 1;
        assert(out@ =~= lower_seq(cs@.take(i as int)));
    }
    assert(cs@.take(cs.len() as int) =~= cs@);
    string_of(&out)
}

/// Decides what to do with an accepted manifest, given the content hash of the open
/// index (if any): nothing when it is the announced one (hashes compared in lower
/// case), otherwise a download of the artifact.
pub fn plan_update(manifest_url: &str, m: &Manifest, current_sha: Option<&str>) -> (r: UpdatePlan)
    ensures
        (current_sha matches Some(c) && c@ == lower_seq(m.index.uncompressed_sha256@)) ==> r
            is UpToDate,
        !(current_sha matches Some(c) && c@ == lower_seq(m.index.uncompressed_sha256@)) ==> (r
            matches UpdatePlan::Download { url, sha256, uncompressed_sha256 } && url@
            == asset_url_of(manifest_url@, m.index.file@) && sha256@ == lower_seq(m.index.sha256@)
            && uncompressed_sha256@ == lower_seq(m.index.uncompressed_sha256@)),
{
    let want = lower_text(m.index.uncompressed_sha256.as_str());
    match current_sha {
        Some(c) => {
            if crate::json::str_eq(c, want.as_str()) {
                return UpdatePlan::UpToDate;
            }
        },
        None => {},
    }
    UpdatePlan::Download {
        url: asset_url(manifest_url, m.index.file.as_str()),
        sha256: lower_text(m.index.sha256.as_str()),
        uncompressed_sha256: want,
    }
}

/// Accepts a download whose hash is the announced one.
pub fn check_download(url: &str, sha256: &str, got: &str) -> (r: Result<(), AppError>)
    ensures
        got@ == sha256@ <==> r is Ok,
        r matches Err(e) ==> is_internal(e, "sha256 mismatch for "@ + url@ + ": "@ + got@),
{
    if crate::json::str_eq(got, sha256) {
        return Ok(());
    }
    let mut msg = "sha256 mismatch for ".to_owned();
    push_all(&mut msg, &chars_of(url));
    push_all(&mut msg, &chars_of(": "));
    push_all(&mut msg, &chars_of(got));
    Err(AppError::Internal(msg))
}

/// Accepts a decompressed index whose hash is the announced one.
pub fn check_uncompressed(uncompressed_sha256: &str, got: &str) -> (r: Result<(), AppError>)
    ensures
        got@ == uncompressed_sha256@ <==> r is Ok,
        r matches Err(e) ==> is_internal(e, "uncompressed sha256 mismatch: "@ + got@),
{
    if crate::json::str_eq(got, uncompressed_sha256) {
        return Ok(());
    }
    let mut msg = "uncompressed sha256 mismatch: ".to_owned();
    push_all(&mut msg, &chars_of(got));
    Err(AppError::Internal(msg))
}

/// The content hash stamped next to an installed index, as read back: trimmed, lower
/// case.
pub fn sidecar_sha(contents: &str) -> (r: String)
    ensures
        r@ == lower_seq(trim(contents@)),
{
    let t = string_of(&trim_chars(&chars_of(contents)));
    lower_text(t.as_str())
}

/// The wait before the next attempt of a failed first download: twice the last one, at
/// most five minutes.
pub fn next_retry_secs(secs: u64) -> (r: u64)
    requires
        secs <= u64::MAX / 2,
    ensures
        r == if 2 * secs < MAX_RETRY_SECS {
            2 * secs
        } else {
            MAX_RETRY_SECS as int
        },
{
    let d = secs * 2;
    if d < MAX_RETRY_SECS {
        d
    } else {
        MAX_RETRY_SECS
    }
}

/// The refresh interval used for a requested one: at least a minute.
pub fn update_interval_secs(requested: u64) -> (r: u64)
    ensures
        r == if requested < MIN_UPDATE_INTERVAL_SECS {
            MIN_UPDATE_INTERVAL_SECS
        } else {
            requested
        },
{
    if requested < MIN_UPDATE_INTERVAL_SECS {
        MIN_UPDATE_INTERVAL_SECS
    } else {
        requested
    }
}

} // verus!

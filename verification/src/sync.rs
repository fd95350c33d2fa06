//! Sync backends that are not implemented yet, and the addresses a sync
//! worker is reached at, with the percent-encoding they use.
use vstd::prelude::*;
use vstd::utf8::encode_utf8;
use crate::error::PenumbraError;
use crate::notes::{Timestamp, hyphenated, now, random_uuid, uuid_text};
use crate::text::{char_pred, drop_while_end, trim_end_char};

verus! {

/// Google Drive sync backend: notes as Drive files, one per note. Not
/// implemented yet: connecting fails.
pub struct GoogleDriveSyncProvider {
    _client_id: String,
}

impl GoogleDriveSyncProvider {
    pub closed spec fn client_id(&self) -> Seq<char> {
        self._client_id@
    }

    pub fn new(client_id: &str) -> (p: GoogleDriveSyncProvider)
        ensures
            p.client_id() == client_id@,
    {
        GoogleDriveSyncProvider { _client_id: client_id.to_owned() }
    }

    /// Connecting fails: the backend is not implemented.
    pub fn connect(&mut self) -> (r: Result<(), PenumbraError>)
        ensures
            r matches Err(PenumbraError::Sync(m)) && m@ == "GoogleDriveSyncProvider is not yet implemented"@,
    {
        Err(PenumbraError::Sync("GoogleDriveSyncProvider is not yet implemented".to_owned()))
    }

    pub fn disconnect(&mut self) -> (r: Result<(), PenumbraError>)
        ensures
            r is Ok,
    {
        Ok(())
    }
}

/// Git sync backend: a remote repository as the snapshot store. Not
/// implemented yet: connecting fails.
pub struct GitSyncProvider {
    _repo_path: String,
    _remote_url: String,
}

impl GitSyncProvider {
    pub closed spec fn repo_path(&self) -> Seq<char> {
        self._repo_path@
    }

    pub closed spec fn remote_url(&self) -> Seq<char> {
        self._remote_url@
    }

    pub fn new(repo_path: &str, remote_url: &str) -> (p: GitSyncProvider)
        ensures
            p.repo_path() == repo_path@,
            p.remote_url() == remote_url@,
    {
        GitSyncProvider { _repo_path: repo_path.to_owned(), _remote_url: remote_url.to_owned() }
    }

    /// Connecting fails: the backend is not implemented.
    pub fn connect(&mut self) -> (r: Result<(), PenumbraError>)
        ensures
            r matches Err(PenumbraError::Sync(m)) && m@ == "GitSyncProvider is not yet implemented"@,
    {
        Err(PenumbraError::Sync("GitSyncProvider is not yet implemented".to_owned()))
    }

    pub fn disconnect(&mut self) -> (r: Result<(), PenumbraError>)
        ensures
            r is Ok,
    {
        Ok(())
    }
}

/// Bytes that stand for themselves in a URL component.
pub open spec fn unreserved(b: u8) -> bool {
    (0x41 <= b <= 0x5a) || (0x61 <= b <= 0x7a) || (0x30 <= b <= 0x39) || b == 0x2d || b == 0x5f || b == 0x2e
        || b == 0x7e
}

/// An upper-case hexadecimal digit.
pub open spec fn hex_digit(d: u8) -> char {
    if d < 10 {
        ((48 + d) as u8) as char
    } else {
        ((55 + d) as u8) as char
    }
}

/// A byte as it appears in a URL component: itself when unreserved, `%`
/// and two upper-case hex digits otherwise.
pub open spec fn percent_byte(b: u8) -> Seq<char> {
    if unreserved(b) {
        seq![b as char]
    } else {
        seq!['%', hex_digit(b / 16), hex_digit(b % 16)]
    }
}

pub open spec fn percent_bytes(bs: Seq<u8>) -> Seq<char>
    decreases bs.len(),
{
    if bs.len() == 0 {
        Seq::empty()
    } else {
        percent_bytes(bs.drop_last()) + percent_byte(bs.last())
    }
}

/// Characters that an encoded text may hold.
pub open spec fn url_safe(c: char) -> bool {
    ('A' <= c <= 'Z') || ('a' <= c <= 'z') || ('0' <= c <= '9') || c == '-' || c == '_' || c == '.' || c == '~'
        || c == '%'
}

fn hex_char(d: u8) -> (c: char)
    requires
        d < 16,
    ensures
        c == hex_digit(d),
{
    if d < 10 {
        (48 + d) as char
    } else {
        (55 + d) as char
    }
}

/// Percent-encodes the UTF-8 bytes of `s` for use in a URL: unreserved
/// bytes stay, every other byte becomes `%XX`.
pub fn urlencoding(s: &str) -> (r: String)
    ensures
        r@ == percent_bytes(encode_utf8(s@)),
{
    let bytes = s.as_bytes();
    let mut out = String::new();
    let mut i: usize = 0;
    while i < bytes.len()
        invariant
            i <= bytes.len(),
            bytes@ == encode_utf8(s@),
            out@ == percent_bytes(bytes@.take(i as int)),
        decreases bytes.len() - i,
    {
        let b = bytes[i];
        proof {
            assert(bytes@.take(i + 1).drop_last() =~= bytes@.take(i as int));
        }
        if (0x41u8 <= b && b <= 0x5a) || (0x61u8 <= b && b <= 0x7a) || (0x30u8 <= b && b <= 0x39) || b == 0x2du8
            || b == 0x5fu8 || b == 0x2eu8 || b == 0x7eu8 {
            out.push(b as char);
        } else {
            out.push('%');
            out.push(hex_char(b / 16));
            out.push(hex_char(b % 16));
        }
        assert(out@ =~= percent_bytes(bytes@.take(i + 1)));
        i = i + 1;
    }
    assert(bytes@.take(bytes.len() as int) =~= bytes@);
    out
}

/// Percent-encoded text is URL-safe: it holds only unreserved characters
/// and `%`.
pub proof fn lemma_percent_bytes_safe(bs: Seq<u8>)
    ensures
        forall|i: int| 0 <= i < percent_bytes(bs).len() ==> url_safe(#[trigger] percent_bytes(bs)[i]),
    decreases bs.len(),
{
    if bs.len() > 0 {
        lemma_percent_bytes_safe(bs.drop_last());
        let a = percent_bytes(bs.drop_last());
        let b = percent_byte(bs.last());
        let x = bs.last();
        assert forall|i: int| 0 <= i < b.len() implies url_safe(#[trigger] b[i]) by {
            if unreserved(x) {
                assert(b[i] == x as char);
            } else {
                assert(x / 16 < 16 && x % 16 < 16);
            }
        }
        assert forall|i: int| 0 <= i < (a + b).len() implies url_safe(#[trigger] (a + b)[i]) by {
            if i < a.len() {
                assert((a + b)[i] == a[i]);
            } else {
                assert((a + b)[i] == b[i - a.len()]);
            }
        }
    }
}

/// The address of a sync worker's API as it is kept: the given address
/// without trailing slashes.
pub fn worker_base_url(base_url: &str) -> (r: String)
    ensures
        r@ == drop_while_end(base_url@, char_pred('/')),
{
    trim_end_char(base_url, '/')
}

/// The address of an endpoint of the worker: the base then the path.
pub fn worker_url(base: &str, path: &str) -> (r: String)
    ensures
        r@ == base@ + path@,
{
    let mut out = base.to_owned();
    out.push_str(path);
    out
}

/// The address a pull is sent to: the pull endpoint, with the snapshot to
/// pull from as a percent-encoded `since` parameter when there is one.
pub fn pull_url(base: &str, since_snapshot: Option<&str>) -> (r: String)
    ensures
        r@ == base@ + "/sync/pull"@ + match since_snapshot {
            Some(sid) => "?since="@ + percent_bytes(encode_utf8(sid@)),
            None => Seq::empty(),
        },
{
    let mut url = worker_url(base, "/sync/pull");
    match since_snapshot {
        Some(sid) => {
            url.push_str("?since=");
            let enc = urlencoding(sid);
            url.push_str(enc.as_str());
        },
        None => {
            assert(url@ + Seq::<char>::empty() =~= url@);
        },
    }
    url
}

/// A point-in-time summary of what was synced: the snapshot's identity,
/// when it was taken, and the notes in it.
#[derive(Debug)]
pub struct SyncSnapshot {
    pub snapshot_id: String,
    pub timestamp: Timestamp,
    pub note_count: u64,
    pub note_ids: Vec<String>,
}

impl SyncSnapshot {
    /// A snapshot of the given notes, taken now, with a fresh random
    /// identity in hyphenated UUID form.
    pub fn new(note_ids: Vec<String>) -> (s: SyncSnapshot)
        ensures
            exists|n: u128| s.snapshot_id@ == #[trigger] hyphenated(n as nat),
            s.note_count == note_ids@.len(),
            s.note_ids == note_ids,
    {
        let n = random_uuid();
        let snapshot_id = uuid_text(n);
        let note_count = note_ids.len() as u64;
        SyncSnapshot { snapshot_id, timestamp: now(), note_count, note_ids }
    }
}

} // verus!

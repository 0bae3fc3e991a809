use vstd::prelude::*;
use crate::chunks::{spec_total_chunks, total_chunks, spec_write, spec_chunk_offset, write_at};
use crate::ids::fresh_id;
use crate::models::{
    ChunkedUpload, DiskInfo, InitiateChunkedUploadResponse, StorageError, StorageResult,
    UploadChunkResponse,
};
use crate::paths::{
    derive_stored_filename, join_path, spec_joined, spec_stored_filename, spec_temp_path,
    spec_user_dir, temp_path_for, user_dir_for,
};
use crate::placement::{choose_root, spec_choose_root};

verus! {

/// One in-progress chunked upload: the durable session record together
/// with the modeled contents of its preallocated temp file. The
/// timestamps are epoch seconds handed in by the embedder — the core
/// keeps no clock. The modeled contents hold the session's bytes in
/// memory, so an embedder pays the declared total size per live
/// session.
pub struct UploadSession {
    pub id: u128,
    pub user_id: u128,
    pub filename: String,
    pub total_size: u64,
    pub chunk_size: u64,
    pub total_chunks: u64,
    pub uploaded_chunks: u64,
    pub temp_path: String,
    pub disk_path: String,
    pub is_completed: bool,
    pub created_at: u64,
    pub updated_at: u64,
    pub data: Vec<u8>,
}

impl UploadSession {
    /// A live session has a positive chunk size, a chunk count derived
    /// from the declared sizes, and a temp file preallocated to exactly
    /// the declared total size.
    pub open spec fn wf(self) -> bool {
        &&& self.chunk_size > 0
        &&& self.total_chunks == spec_total_chunks(self.total_size as int, self.chunk_size as int)
        &&& self.data@.len() == self.total_size
    }

    /// The read-only projection that a status query reports.
    pub open spec fn spec_status(self) -> ChunkedUpload {
        (ChunkedUpload {
            id: self.id,
            user_id: self.user_id,
            filename: self.filename,
            total_size: self.total_size,
            chunk_size: self.chunk_size,
            total_chunks: self.total_chunks,
            uploaded_chunks: self.uploaded_chunks,
            temp_path: self.temp_path,
            disk_path: self.disk_path,
            is_completed: self.is_completed,
            created_at: self.created_at,
            updated_at: self.updated_at,
        })
    }
}

/// No two sessions share an identifier.
pub open spec fn spec_ids_unique(ss: Seq<UploadSession>) -> bool {
    forall|k1: int, k2: int|
        0 <= k1 < k2 < ss.len() ==> (#[trigger] ss[k1]).id != (#[trigger] ss[k2]).id
}

/// Some session in `ss` carries the identifier `id`.
pub open spec fn spec_has_id(ss: Seq<UploadSession>, id: u128) -> bool {
    exists|k: int| 0 <= k < ss.len() && (#[trigger] ss[k]).id == id
}

/// The session in `ss` carrying the identifier `id` (well defined when
/// identifiers are unique and `id` is present).
pub open spec fn spec_session_at(ss: Seq<UploadSession>, id: u128) -> UploadSession {
    ss[choose|k: int| 0 <= k < ss.len() && (#[trigger] ss[k]).id == id]
}

proof fn lemma_found_unique(ss: Seq<UploadSession>, k: int)
    requires
        spec_ids_unique(ss),
        0 <= k < ss.len(),
    ensures
        spec_has_id(ss, ss[k].id),
        spec_session_at(ss, ss[k].id) == ss[k],
        forall|j: int| 0 <= j < ss.len() && j != k ==> (#[trigger] ss[j]).id != ss[k].id,
{
    assert(spec_has_id(ss, ss[k].id)) by {
        assert(0 <= k < ss.len() && ss[k].id == ss[k].id);
    }
    assert forall|j: int| 0 <= j < ss.len() && j != k implies (#[trigger] ss[j]).id != ss[k].id by {
        if j < k {
            assert(ss[j].id != ss[k].id);
        } else {
            assert(ss[k].id != ss[j].id);
        }
    }
    let c = choose|j: int| 0 <= j < ss.len() && (#[trigger] ss[j]).id == ss[k].id;
    assert(c == k);
}

proof fn lemma_remove_preserves(ss: Seq<UploadSession>, k: int)
    requires
        spec_ids_unique(ss),
        0 <= k < ss.len(),
    ensures
        spec_ids_unique(ss.remove(k)),
        !spec_has_id(ss.remove(k), ss[k].id),
        forall|j: int|
            0 <= j < ss.remove(k).len()
                ==> #[trigger] ss.remove(k)[j] == (if j < k { ss[j] } else { ss[j + 1] }),
        forall|x: u128| x != ss[k].id ==> spec_has_id(ss.remove(k), x) == spec_has_id(ss, x),
        forall|x: u128|
            x != ss[k].id && spec_has_id(ss, x)
                ==> spec_session_at(ss.remove(k), x) == spec_session_at(ss, x),
{
    let st = ss.remove(k);
    lemma_found_unique(ss, k);
    assert forall|j: int| 0 <= j < st.len()
        implies #[trigger] st[j] == (if j < k { ss[j] } else { ss[j + 1] }) by {}
    assert forall|j1: int, j2: int| 0 <= j1 < j2 < st.len()
        implies (#[trigger] st[j1]).id != (#[trigger] st[j2]).id by {
        let m1: int = if j1 < k { j1 } else { j1 + 1 };
        let m2: int = if j2 < k { j2 } else { j2 + 1 };
        assert(ss[m1].id != ss[m2].id);
    }
    if spec_has_id(st, ss[k].id) {
        let j = choose|j: int| 0 <= j < st.len() && (#[trigger] st[j]).id == ss[k].id;
        let m: int = if j < k { j } else { j + 1 };
        assert(ss[m].id == ss[k].id && m != k);
        assert(false);
    }
    assert forall|x: u128| x != ss[k].id
        implies spec_has_id(st, x) == spec_has_id(ss, x) by {
        if spec_has_id(st, x) {
            let j = choose|j: int| 0 <= j < st.len() && (#[trigger] st[j]).id == x;
            let m: int = if j < k { j } else { j + 1 };
            assert(0 <= m < ss.len() && ss[m].id == x);
        }
        if spec_has_id(ss, x) {
            let m = choose|m: int| 0 <= m < ss.len() && (#[trigger] ss[m]).id == x;
            assert(m != k);
            let j: int = if m < k { m } else { m - 1 };
            assert(st[j] == ss[m]);
            assert(0 <= j < st.len() && st[j].id == x);
        }
    }
    assert forall|x: u128| x != ss[k].id && spec_has_id(ss, x)
        implies spec_session_at(st, x) == spec_session_at(ss, x) by {
        let m = choose|m: int| 0 <= m < ss.len() && (#[trigger] ss[m]).id == x;
        lemma_found_unique(ss, m);
        assert(m != k);
        let j: int = if m < k { m } else { m - 1 };
        assert(st[j] == ss[m]);
        assert(spec_has_id(st, x)) by {
            assert(0 <= j < st.len() && st[j].id == x);
        }
        let c = choose|c: int| 0 <= c < st.len() && (#[trigger] st[c]).id == x;
        let mc: int = if c < k { c } else { c + 1 };
        assert(ss[mc].id == x);
        assert(mc == m);
    }
}

proof fn lemma_update_preserves(ss: Seq<UploadSession>, k: int, s2: UploadSession)
    requires
        spec_ids_unique(ss),
        0 <= k < ss.len(),
        s2.id == ss[k].id,
    ensures
        spec_ids_unique(ss.update(k, s2)),
        forall|x: u128| spec_has_id(ss.update(k, s2), x) == spec_has_id(ss, x),
        spec_session_at(ss.update(k, s2), s2.id) == s2,
        forall|x: u128|
            x != s2.id && spec_has_id(ss, x)
                ==> spec_session_at(ss.update(k, s2), x) == spec_session_at(ss, x),
{
    let st = ss.update(k, s2);
    lemma_found_unique(ss, k);
    assert forall|j1: int, j2: int| 0 <= j1 < j2 < st.len()
        implies (#[trigger] st[j1]).id != (#[trigger] st[j2]).id by {
        assert(ss[j1].id != ss[j2].id);
    }
    assert forall|x: u128| spec_has_id(st, x) == spec_has_id(ss, x) by {
        if spec_has_id(st, x) {
            let j = choose|j: int| 0 <= j < st.len() && (#[trigger] st[j]).id == x;
            assert(0 <= j < ss.len() && ss[j].id == x);
        }
        if spec_has_id(ss, x) {
            let m = choose|m: int| 0 <= m < ss.len() && (#[trigger] ss[m]).id == x;
            assert(0 <= m < st.len() && st[m].id == x);
        }
    }
    assert(spec_session_at(st, s2.id) == s2) by {
        assert(spec_has_id(st, s2.id)) by {
            assert(0 <= k < st.len() && st[k].id == s2.id);
        }
        let c = choose|c: int| 0 <= c < st.len() && (#[trigger] st[c]).id == s2.id;
        if c != k {
            assert(ss[c].id == ss[k].id);
            assert(false);
        }
    }
    assert forall|x: u128| x != s2.id && spec_has_id(ss, x)
        implies spec_session_at(st, x) == spec_session_at(ss, x) by {
        let m = choose|m: int| 0 <= m < ss.len() && (#[trigger] ss[m]).id == x;
        lemma_found_unique(ss, m);
        assert(m != k);
        assert(spec_has_id(st, x)) by {
            assert(0 <= m < st.len() && st[m].id == x);
        }
        let c = choose|c: int| 0 <= c < st.len() && (#[trigger] st[c]).id == x;
        if c != m {
            if c == k {
                assert(st[c].id == s2.id);
                assert(false);
            } else {
                assert(ss[c].id == ss[m].id);
                assert(false);
            }
        }
    }
}

proof fn lemma_push_preserves(ss: Seq<UploadSession>, s2: UploadSession)
    requires
        spec_ids_unique(ss),
        !spec_has_id(ss, s2.id),
    ensures
        spec_ids_unique(ss.push(s2)),
        spec_has_id(ss.push(s2), s2.id),
        spec_session_at(ss.push(s2), s2.id) == s2,
        forall|x: u128| x != s2.id ==> spec_has_id(ss.push(s2), x) == spec_has_id(ss, x),
        forall|x: u128|
            x != s2.id && spec_has_id(ss, x)
                ==> spec_session_at(ss.push(s2), x) == spec_session_at(ss, x),
{
    let st = ss.push(s2);
    assert forall|j1: int, j2: int| 0 <= j1 < j2 < st.len()
        implies (#[trigger] st[j1]).id != (#[trigger] st[j2]).id by {
        if j2 == ss.len() {
            if st[j1].id == s2.id {
                assert(0 <= j1 < ss.len() && ss[j1].id == s2.id);
                assert(spec_has_id(ss, s2.id));
            }
        } else {
            assert(ss[j1].id != ss[j2].id);
        }
    }
    assert(spec_has_id(st, s2.id)) by {
        assert(st[ss.len() as int].id == s2.id);
    }
    assert(spec_session_at(st, s2.id) == s2) by {
        let c = choose|c: int| 0 <= c < st.len() && (#[trigger] st[c]).id == s2.id;
        if c != ss.len() {
            assert(0 <= c < ss.len() && ss[c].id == s2.id);
            assert(spec_has_id(ss, s2.id));
            assert(false);
        }
    }
    assert forall|x: u128| x != s2.id
        implies spec_has_id(st, x) == spec_has_id(ss, x) by {
        if spec_has_id(st, x) {
            let j = choose|j: int| 0 <= j < st.len() && (#[trigger] st[j]).id == x;
            assert(j != ss.len());
            assert(0 <= j < ss.len() && ss[j].id == x);
        }
        if spec_has_id(ss, x) {
            let m = choose|m: int| 0 <= m < ss.len() && (#[trigger] ss[m]).id == x;
            assert(0 <= m < st.len() && st[m].id == x);
        }
    }
    assert forall|x: u128| x != s2.id && spec_has_id(ss, x)
        implies spec_session_at(st, x) == spec_session_at(ss, x) by {
        let m = choose|m: int| 0 <= m < ss.len() && (#[trigger] ss[m]).id == x;
        lemma_found_unique(ss, m);
        assert(spec_has_id(st, x)) by {
            assert(0 <= m < st.len() && st[m].id == x);
        }
        let c = choose|c: int| 0 <= c < st.len() && (#[trigger] st[c]).id == x;
        assert(c != ss.len());
        assert(ss[c].id == x);
        assert(c == m);
    }
}

/// A chunk write stays inside the preallocated temp file: the chunk
/// number is at least one and the written window ends at or before the
/// declared total size.
pub open spec fn spec_chunk_in_range(s: UploadSession, chunk_number: u64, len: int) -> bool {
    &&& chunk_number >= 1
    &&& spec_chunk_offset(s.chunk_size as int, chunk_number as int) + len <= s.total_size
}

/// Owns the lifecycle of every chunked upload: creation, chunk
/// application, completion, cancellation and status queries, over a
/// durable store of session records keyed by identifier.
pub struct UploadManager {
    pub sessions: Vec<UploadSession>,
}

impl UploadManager {
    /// Session identifiers are unique and every session is well formed.
    pub open spec fn wf(self) -> bool {
        &&& spec_ids_unique(self.sessions@)
        &&& forall|k: int| 0 <= k < self.sessions@.len() ==> (#[trigger] self.sessions@[k]).wf()
    }

    /// Whether a session with this identifier exists.
    pub open spec fn spec_has(self, id: u128) -> bool {
        spec_has_id(self.sessions@, id)
    }

    /// The session with this identifier.
    pub open spec fn spec_session(self, id: u128) -> UploadSession {
        spec_session_at(self.sessions@, id)
    }

    /// An empty manager, with no session records.
    pub fn new() -> (m: UploadManager)
        ensures
            m.wf(),
            forall|id: u128| !m.spec_has(id),
    {
        let m = UploadManager { sessions: Vec::new() };
        proof {
            assert forall|id: u128| !m.spec_has(id) by {}
        }
        m
    }

    fn find(&self, id: u128) -> (r: Option<usize>)
        ensures
            match r {
                Option::Some(k) => k < self.sessions@.len() && self.sessions@[k as int].id == id,
                Option::None => !self.spec_has(id),
            },
    {
        let n = self.sessions.len();
        let mut i: usize = 0;
        while i < n
            invariant
                i <= n,
                n == self.sessions@.len(),
                forall|j: int| 0 <= j < i ==> (#[trigger] self.sessions@[j]).id != id,
            decreases n - i,
        {
            if self.sessions[i].id == id {
                return Some(i);
            }
            i = i + 1;
        }
        None
    }

    /// Whether a session record with this identifier exists.
    pub fn contains_session(&self, id: u128) -> (r: bool)
        requires
            self.wf(),
        ensures
            r == self.spec_has(id),
    {
        match self.find(id) {
            Option::Some(k) => {
                proof {
                    lemma_found_unique(self.sessions@, k as int);
                }
                true
            },
            Option::None => false,
        }
    }

    /// Begins a chunked upload: picks a storage root sized to
    /// `total_size` from the given capacity snapshots, preallocates the
    /// temp file (modeled as zero-filled contents of exactly
    /// `total_size` bytes) and records the new session, stamped with
    /// the caller's clock (`now`, epoch seconds).
    ///
    /// Fails with `CapacityExhausted` exactly when no root qualifies,
    /// and with `IOError` exactly when the preallocation cannot be
    /// addressed on this machine; a failure changes nothing.
    pub fn initiate(
        &mut self,
        caller: u128,
        upload_id: u128,
        filename: &String,
        total_size: u64,
        chunk_size: u64,
        disks: &Vec<DiskInfo>,
        now: u64,
    ) -> (r: Result<InitiateChunkedUploadResponse, StorageError>)
        requires
            old(self).wf(),
            chunk_size > 0,
            !old(self).spec_has(upload_id),
        ensures
            final(self).wf(),
            match r {
                Result::Ok(resp) => {
                    &&& spec_choose_root(disks@, total_size as int) is Some
                    &&& total_size <= usize::MAX
                    &&& resp.upload_id == upload_id
                    &&& resp.chunk_size == chunk_size
                    &&& resp.total_chunks == spec_total_chunks(
                        total_size as int,
                        chunk_size as int,
                    )
                    &&& final(self).spec_has(upload_id)
                    &&& ({
                        let s = final(self).spec_session(upload_id);
                        let d = disks@[spec_choose_root(disks@, total_size as int)->Some_0];
                        &&& s.id == upload_id
                        &&& s.user_id == caller
                        &&& s.filename == *filename
                        &&& s.total_size == total_size
                        &&& s.chunk_size == chunk_size
                        &&& s.total_chunks == resp.total_chunks
                        &&& s.uploaded_chunks == 0
                        &&& s.is_completed == false
                        &&& s.created_at == now
                        &&& s.updated_at == now
                        &&& s.disk_path == d.path
                        &&& s.temp_path@ == spec_temp_path(
                            d.path@,
                            caller as int,
                            upload_id as int,
                        )
                        &&& s.data@ == Seq::new(total_size as nat, |j: int| 0u8)
                    })
                    &&& forall|x: u128|
                        x != upload_id ==> final(self).spec_has(x) == old(self).spec_has(x)
                    &&& forall|x: u128|
                        x != upload_id && old(self).spec_has(x) ==> final(self).spec_session(x)
                            == old(self).spec_session(x)
                },
                Result::Err(e) => {
                    &&& *final(self) == *old(self)
                    &&& if spec_choose_root(disks@, total_size as int) is None {
                        e == StorageError::CapacityExhausted
                    } else {
                        e == StorageError::IOError && total_size > usize::MAX
                    }
                },
            },
    {
        match choose_root(disks, total_size) {
            Option::None => Err(StorageError::CapacityExhausted),
            Option::Some(k) => {
                if total_size > usize::MAX as u64 {
                    return Err(StorageError::IOError);
                }
                let disk_path = disks[k].path.clone();
                let tc = total_chunks(total_size, chunk_size);
                let temp_path = temp_path_for(&disk_path, caller, upload_id);
                let data = zero_vec(total_size as usize);
                let session = UploadSession {
                    id: upload_id,
                    user_id: caller,
                    filename: filename.clone(),
                    total_size,
                    chunk_size,
                    total_chunks: tc,
                    uploaded_chunks: 0,
                    temp_path,
                    disk_path,
                    is_completed: false,
                    created_at: now,
                    updated_at: now,
                    data,
                };
                proof {
                    lemma_push_preserves(self.sessions@, session);
                }
                self.sessions.push(session);
                Ok(InitiateChunkedUploadResponse { upload_id, chunk_size, total_chunks: tc })
            },
        }
    }

    /// Applies one chunk: writes its bytes at the chunk's offset in the
    /// temp file (out-of-order and repeated delivery both land on the
    /// same window), advances the progress counter unconditionally — a
    /// repeated chunk is counted again — and moves the record's update
    /// timestamp to the caller's clock. The reported completion flag is
    /// advisory only.
    ///
    /// Rejects an unknown session with `NotFound`, a foreign session
    /// with `Forbidden`, a completed session with `AlreadyCompleted`,
    /// and a write that would leave the preallocated window with
    /// `IOError`; a rejection changes nothing.
    pub fn apply_chunk(
        &mut self,
        caller: u128,
        upload_id: u128,
        chunk_number: u64,
        bytes: &Vec<u8>,
        now: u64,
    ) -> (r: Result<UploadChunkResponse, StorageError>)
        requires
            old(self).wf(),
        ensures
            final(self).wf(),
            match r {
                Result::Ok(resp) => {
                    let s0 = old(self).spec_session(upload_id);
                    let s1 = final(self).spec_session(upload_id);
                    &&& old(self).spec_has(upload_id)
                    &&& s0.user_id == caller
                    &&& !s0.is_completed
                    &&& spec_chunk_in_range(s0, chunk_number, bytes@.len() as int)
                    &&& final(self).spec_has(upload_id)
                    &&& s1.data@ == spec_write(
                        s0.data@,
                        spec_chunk_offset(s0.chunk_size as int, chunk_number as int),
                        bytes@,
                    )
                    &&& s1.uploaded_chunks == if s0.uploaded_chunks < u64::MAX {
                        s0.uploaded_chunks + 1
                    } else {
                        s0.uploaded_chunks as int
                    }
                    &&& s1.id == s0.id
                    &&& s1.user_id == s0.user_id
                    &&& s1.filename == s0.filename
                    &&& s1.total_size == s0.total_size
                    &&& s1.chunk_size == s0.chunk_size
                    &&& s1.total_chunks == s0.total_chunks
                    &&& s1.temp_path == s0.temp_path
                    &&& s1.disk_path == s0.disk_path
                    &&& s1.is_completed == s0.is_completed
                    &&& s1.created_at == s0.created_at
                    &&& s1.updated_at == now
                    &&& resp.chunk_number == chunk_number
                    &&& resp.uploaded
                    &&& resp.upload_completed == (s1.uploaded_chunks >= s1.total_chunks)
                    &&& forall|x: u128|
                        x != upload_id ==> final(self).spec_has(x) == old(self).spec_has(x)
                    &&& forall|x: u128|
                        x != upload_id && old(self).spec_has(x) ==> final(self).spec_session(x)
                            == old(self).spec_session(x)
                },
                Result::Err(e) => {
                    &&& *final(self) == *old(self)
                    &&& if !old(self).spec_has(upload_id) {
                        e == StorageError::NotFound
                    } else if old(self).spec_session(upload_id).user_id != caller {
                        e == StorageError::Forbidden
                    } else if old(self).spec_session(upload_id).is_completed {
                        e == StorageError::AlreadyCompleted
                    } else {
                        e == StorageError::IOError && !spec_chunk_in_range(
                            old(self).spec_session(upload_id),
                            chunk_number,
                            bytes@.len() as int,
                        )
                    }
                },
            },
    {
        let k = match self.find(upload_id) {
            Option::None => {
                return Err(StorageError::NotFound);
            },
            Option::Some(k) => k,
        };
        proof {
            lemma_found_unique(self.sessions@, k as int);
        }
        if self.sessions[k].user_id != caller {
            return Err(StorageError::Forbidden);
        }
        if self.sessions[k].is_completed {
            return Err(StorageError::AlreadyCompleted);
        }
        if chunk_number < 1 {
            return Err(StorageError::IOError);
        }
        let dlen = self.sessions[k].data.len();
        let cn1 = chunk_number - 1;
        let cs = self.sessions[k].chunk_size;
        proof {
            assert((cn1 as int) * (cs as int) <= 0xffffffffffffffff * 0xffffffffffffffff)
                by (nonlinear_arith)
                requires
                    0 <= cn1 <= 0xffffffffffffffff,
                    0 <= cs <= 0xffffffffffffffff;
        }
        let off128 = (cn1 as u128) * (cs as u128);
        if off128 + (bytes.len() as u128) > dlen as u128 {
            proof {
                assert(!spec_chunk_in_range(
                    old(self).spec_session(upload_id),
                    chunk_number,
                    bytes@.len() as int,
                ));
            }
            return Err(StorageError::IOError);
        }
        let offset = off128 as usize;
        let ghost pre = self.sessions@;
        let mut s = self.sessions.remove(k);
        write_at(&mut s.data, offset, bytes);
        if s.uploaded_chunks < u64::MAX {
            s.uploaded_chunks = s.uploaded_chunks + 1;
        }
        s.updated_at = now;
        let done = s.uploaded_chunks >= s.total_chunks;
        let resp = UploadChunkResponse {
            chunk_number,
            uploaded: true,
            upload_completed: done,
        };
        proof {
            assert(pre.remove(k as int).insert(k as int, s) =~= pre.update(k as int, s));
            lemma_update_preserves(pre, k as int, s);
        }
        self.sessions.insert(k, s);
        Ok(resp)
    }

    /// Finalizes a fully received upload: generates a storage
    /// identifier, derives the permanent filename and path under the
    /// session's root, hands back the assembled bytes (whose length is
    /// exactly the declared total size), and deletes the session record
    /// — finality is represented by the stored file, not the session.
    ///
    /// Rejects an unknown session with `NotFound`, a foreign session
    /// with `Forbidden`, and a session with fewer applied chunks than
    /// its chunk count with `Incomplete`; a rejection changes nothing.
    pub fn complete(&mut self, caller: u128, upload_id: u128) -> (r: Result<
        (StorageResult, Vec<u8>),
        StorageError,
    >)
        requires
            old(self).wf(),
        ensures
            final(self).wf(),
            match r {
                Result::Ok(out) => {
                    let s = old(self).spec_session(upload_id);
                    &&& old(self).spec_has(upload_id)
                    &&& s.user_id == caller
                    &&& s.uploaded_chunks >= s.total_chunks
                    &&& out.1@ == s.data@
                    &&& out.0.file_size == s.total_size
                    &&& out.1@.len() == out.0.file_size
                    &&& out.0.disk_path == s.disk_path
                    &&& out.0.file_id@.len() == 36
                    &&& out.0.filename@ == spec_stored_filename(out.0.file_id@, s.filename@)
                    &&& out.0.file_path@ == spec_joined(
                        spec_user_dir(s.disk_path@, s.user_id as int),
                        out.0.filename@,
                    )
                    &&& !final(self).spec_has(upload_id)
                    &&& forall|x: u128|
                        x != upload_id ==> final(self).spec_has(x) == old(self).spec_has(x)
                    &&& forall|x: u128|
                        x != upload_id && old(self).spec_has(x) ==> final(self).spec_session(x)
                            == old(self).spec_session(x)
                },
                Result::Err(e) => {
                    &&& *final(self) == *old(self)
                    &&& if !old(self).spec_has(upload_id) {
                        e == StorageError::NotFound
                    } else if old(self).spec_session(upload_id).user_id != caller {
                        e == StorageError::Forbidden
                    } else {
                        e == StorageError::Incomplete
                            && old(self).spec_session(upload_id).uploaded_chunks < old(
                            self,
                        ).spec_session(upload_id).total_chunks
                    }
                },
            },
    {
        let k = match self.find(upload_id) {
            Option::None => {
                return Err(StorageError::NotFound);
            },
            Option::Some(k) => k,
        };
        proof {
            lemma_found_unique(self.sessions@, k as int);
        }
        if self.sessions[k].user_id != caller {
            return Err(StorageError::Forbidden);
        }
        if self.sessions[k].uploaded_chunks < self.sessions[k].total_chunks {
            return Err(StorageError::Incomplete);
        }
        proof {
            lemma_remove_preserves(self.sessions@, k as int);
        }
        let s = self.sessions.remove(k);
        let file_id = fresh_id();
        let filename = derive_stored_filename(&file_id, &s.filename);
        let user_dir = user_dir_for(&s.disk_path, s.user_id);
        let file_path = join_path(&user_dir, &filename);
        let result = StorageResult {
            file_id,
            filename,
            file_path,
            disk_path: s.disk_path,
            file_size: s.total_size,
        };
        Ok((result, s.data))
    }

    /// Cancels an upload: deletes the temp file and the session record,
    /// regardless of partial progress. A later status query for the
    /// same identifier reports `NotFound`.
    ///
    /// Rejects an unknown session with `NotFound` and a foreign session
    /// with `Forbidden`; a rejection changes nothing.
    pub fn cancel(&mut self, caller: u128, upload_id: u128) -> (r: Result<(), StorageError>)
        requires
            old(self).wf(),
        ensures
            final(self).wf(),
            match r {
                Result::Ok(u) => {
                    &&& old(self).spec_has(upload_id)
                    &&& old(self).spec_session(upload_id).user_id == caller
                    &&& !final(self).spec_has(upload_id)
                    &&& forall|x: u128|
                        x != upload_id ==> final(self).spec_has(x) == old(self).spec_has(x)
                    &&& forall|x: u128|
                        x != upload_id && old(self).spec_has(x) ==> final(self).spec_session(x)
                            == old(self).spec_session(x)
                },
                Result::Err(e) => {
                    &&& *final(self) == *old(self)
                    &&& if !old(self).spec_has(upload_id) {
                        e == StorageError::NotFound
                    } else {
                        e == StorageError::Forbidden && old(self).spec_session(
                            upload_id,
                        ).user_id != caller
                    }
                },
            },
    {
        let k = match self.find(upload_id) {
            Option::None => {
                return Err(StorageError::NotFound);
            },
            Option::Some(k) => k,
        };
        proof {
            lemma_found_unique(self.sessions@, k as int);
        }
        if self.sessions[k].user_id != caller {
            return Err(StorageError::Forbidden);
        }
        proof {
            lemma_remove_preserves(self.sessions@, k as int);
        }
        let _ = self.sessions.remove(k);
        Ok(())
    }

    /// Reports the current session record, read-only.
    ///
    /// Rejects an unknown session with `NotFound` and a foreign session
    /// with `Forbidden`.
    pub fn status(&self, caller: u128, upload_id: u128) -> (r: Result<ChunkedUpload, StorageError>)
        requires
            self.wf(),
        ensures
            match r {
                Result::Ok(u) => {
                    &&& self.spec_has(upload_id)
                    &&& self.spec_session(upload_id).user_id == caller
                    &&& u == self.spec_session(upload_id).spec_status()
                },
                Result::Err(e) => {
                    if !self.spec_has(upload_id) {
                        e == StorageError::NotFound
                    } else {
                        e == StorageError::Forbidden && self.spec_session(upload_id).user_id
                            != caller
                    }
                },
            },
    {
        let k = match self.find(upload_id) {
            Option::None => {
                return Err(StorageError::NotFound);
            },
            Option::Some(k) => k,
        };
        proof {
            lemma_found_unique(self.sessions@, k as int);
        }
        let s = &self.sessions[k];
        if s.user_id != caller {
            return Err(StorageError::Forbidden);
        }
        Ok(ChunkedUpload {
            id: s.id,
            user_id: s.user_id,
            filename: s.filename.clone(),
            total_size: s.total_size,
            chunk_size: s.chunk_size,
            total_chunks: s.total_chunks,
            uploaded_chunks: s.uploaded_chunks,
            temp_path: s.temp_path.clone(),
            disk_path: s.disk_path.clone(),
            is_completed: s.is_completed,
            created_at: s.created_at,
            updated_at: s.updated_at,
        })
    }
}

fn zero_vec(n: usize) -> (v: Vec<u8>)
    ensures
        v@ == Seq::new(n as nat, |j: int| 0u8),
{
    let mut v: Vec<u8> = Vec::new();
    let mut i: usize = 0;
    while i < n
        invariant
            i <= n,
            v@.len() == i,
            forall|j: int| 0 <= j < i ==> v@[j] == 0u8,
        decreases n - i,
    {
        v.push(0u8);
        i = i + 1;
    }
    assert(v@ =~= Seq::new(n as nat, |j: int| 0u8));
    v
}

} // verus!

//! Firmware update over HTTP: the upload credential check and the plan by which the uploaded
//! image is written to flash in chunks.

use vstd::prelude::*;
use vstd::string::StringSliceAdditionalSpecFns;

use crate::text::bytes_eq;

verus! {

/// The built-in upload password; a build may set another (see `check_auth_with`).
pub const OTA_PASSWORD: &'static str = "auto-water-ota";

/// The size of the chunks in which the image is written to flash.
pub const WRITE_CHUNK_SIZE: usize = 4096;

/// Why a firmware update stopped.
pub enum OtaError {
    UpdaterInit,
    NoNextPartition,
    SocketRead,
    FlashWrite,
    Activate,
}

impl OtaError {
    /// The name of the failure, as written to the log.
    pub fn name(&self) -> (r: &'static str)
        ensures
            r@ == match *self {
                OtaError::UpdaterInit => "UpdaterInit"@,
                OtaError::NoNextPartition => "NoNextPartition"@,
                OtaError::SocketRead => "SocketRead"@,
                OtaError::FlashWrite => "FlashWrite"@,
                OtaError::Activate => "Activate"@,
            },
    {
        match self {
            OtaError::UpdaterInit => "UpdaterInit",
            OtaError::NoNextPartition => "NoNextPartition",
            OtaError::SocketRead => "SocketRead",
            OtaError::FlashWrite => "FlashWrite",
            OtaError::Activate => "Activate",
        }
    }
}

/// The `Authorization` header value that unlocks an upload protected by `password`:
/// `Bearer ` and the password.
pub open spec fn bearer_credentials_for(password: Seq<u8>) -> Seq<u8> {
    "Bearer ".spec_bytes() + password
}

/// The `Authorization` header value that unlocks an upload under the built-in password.
pub open spec fn bearer_credentials() -> Seq<u8> {
    bearer_credentials_for(OTA_PASSWORD.spec_bytes())
}

/// The `Authorization` header, if any, carries `password` as a bearer token.
pub open spec fn auth_accepted_with(auth_header: Option<Seq<u8>>, password: Seq<u8>) -> bool {
    auth_header matches Some(v) && v == bearer_credentials_for(password)
}

/// The `Authorization` header, if any, carries the built-in password as a bearer token.
pub open spec fn auth_accepted(auth_header: Option<Seq<u8>>) -> bool {
    auth_accepted_with(auth_header, OTA_PASSWORD.spec_bytes())
}

/// Whether an upload request may proceed under `password`: its `Authorization` header must be
/// exactly `Bearer <password>`.
pub fn check_auth_with(auth_header: Option<&[u8]>, password: &str) -> (ok: bool)
    ensures
        ok == auth_accepted_with(match auth_header { Some(v) => Some(v@), None => None }, password.spec_bytes()),
{
    match auth_header {
        None => false,
        Some(value) => {
            let scheme = "Bearer ".as_bytes();
            let pw = password.as_bytes();
            proof {
                reveal_strlit("Bearer ");
                vstd::string::is_ascii_spec_bytes("Bearer ");
            }
            assert(scheme@.len() == 7);
            if value.len() < scheme.len() || value.len() - scheme.len() != pw.len() {
                return false;
            }
            let head = vstd::slice::slice_subrange(value, 0, scheme.len());
            let tail = vstd::slice::slice_subrange(value, scheme.len(), value.len());
            let r = bytes_eq(head, scheme) && bytes_eq(tail, pw);
            proof {
                if value@ == bearer_credentials_for(pw@) {
                    assert(head@ =~= scheme@);
                    assert(tail@ =~= pw@);
                }
                if r {
                    assert(value@ =~= head@ + tail@);
                }
            }
            r
        },
    }
}

/// Whether an upload request may proceed under the built-in password: its `Authorization`
/// header must be exactly `Bearer auto-water-ota`.
pub fn check_auth(auth_header: Option<&[u8]>) -> (ok: bool)
    ensures
        ok == auth_accepted(match auth_header { Some(v) => Some(v@), None => None }),
{
    check_auth_with(auth_header, OTA_PASSWORD)
}

/// The smaller of two sizes.
pub open spec fn min(a: int, b: int) -> int {
    if a <= b {
        a
    } else {
        b
    }
}

/// Progress of writing an uploaded image of `content_length` bytes to flash. The first
/// `initial_len` bytes of the image arrived together with the request head; the rest is read
/// from the connection.
pub struct OtaTransfer {
    pub content_length: usize,
    pub initial_len: usize,
    pub total_written: usize,
    pub initial_pos: usize,
}

/// One flash write: `size` bytes at `offset`, of which the first `from_initial` are taken from
/// the bytes received with the request head, starting at `initial_start`, and the rest are read
/// from the connection.
pub struct ChunkPlan {
    pub offset: u32,
    pub size: usize,
    pub initial_start: usize,
    pub from_initial: usize,
}

impl OtaTransfer {
    /// Nothing is written past the image, and the bytes that came with the request head are
    /// used up first: exactly those among the bytes written so far.
    pub open spec fn wf(&self) -> bool {
        &&& self.total_written <= self.content_length
        &&& self.initial_pos == min(self.total_written as int, self.initial_len as int)
    }

    /// The image is completely written.
    pub open spec fn done(&self) -> bool {
        self.total_written == self.content_length
    }

    /// The next write: at most one chunk, at the current position.
    pub open spec fn planned(&self) -> ChunkPlan {
        let size = min(WRITE_CHUNK_SIZE as int, self.content_length - self.total_written);
        ChunkPlan {
            offset: self.total_written as u32,
            size: size as usize,
            initial_start: self.initial_pos,
            from_initial: min(self.initial_len - self.initial_pos, size) as usize,
        }
    }

    /// The progress after the planned write.
    pub open spec fn advanced(&self) -> OtaTransfer {
        let p = self.planned();
        OtaTransfer {
            content_length: self.content_length,
            initial_len: self.initial_len,
            total_written: (self.total_written + p.size) as usize,
            initial_pos: (self.initial_pos + p.from_initial) as usize,
        }
    }

    /// A transfer of `content_length` bytes that has not started.
    pub fn new(content_length: usize, initial_len: usize) -> (t: Self)
        ensures
            t.wf(),
            t.content_length == content_length,
            t.initial_len == initial_len,
            t.total_written == 0,
    {
        OtaTransfer { content_length, initial_len, total_written: 0, initial_pos: 0 }
    }

    /// The next chunk to write, or `None` once the whole image is written.
    pub fn next_chunk(&self) -> (plan: Option<ChunkPlan>)
        requires
            self.wf(),
        ensures
            plan is None <==> self.done(),
            plan matches Some(p) ==> {
                &&& p == self.planned()
                &&& p.offset == self.total_written as u32
                &&& p.size == min(WRITE_CHUNK_SIZE as int, self.content_length - self.total_written)
                &&& 0 < p.size <= WRITE_CHUNK_SIZE
                &&& p.from_initial <= p.size
                &&& p.initial_start + p.from_initial <= self.initial_len
            },
    {
        if self.total_written >= self.content_length {
            return None;
        }
        let remaining = self.content_length - self.total_written;
        let size = if WRITE_CHUNK_SIZE < remaining { WRITE_CHUNK_SIZE } else { remaining };
        let available = self.initial_len - self.initial_pos;
        let from_initial = if available < size { available } else { size };
        Some(ChunkPlan { offset: self.total_written as u32, size, initial_start: self.initial_pos, from_initial })
    }

    /// Records that the planned chunk has been written.
    pub fn chunk_written(&mut self, plan: &ChunkPlan)
        requires
            old(self).wf(),
            !old(self).done(),
            *plan == old(self).planned(),
        ensures
            *final(self) == old(self).advanced(),
            final(self).wf(),
    {
        self.total_written = self.total_written + plan.size;
        self.initial_pos = self.initial_pos + plan.from_initial;
    }

    /// How far a chunk is filled after a read from the connection returned `n` bytes: a read
    /// of nothing means the connection closed before the image was complete.
    pub fn absorb_read(filled: usize, size: usize, n: usize) -> (r: Result<usize, OtaError>)
        requires
            filled < size,
            n <= size - filled,
        ensures
            n == 0 ==> r matches Err(OtaError::SocketRead),
            n > 0 ==> r == Ok::<usize, OtaError>((filled + n) as usize),
    {
        if n == 0 {
            Err(OtaError::SocketRead)
        } else {
            Ok(filled + n)
        }
    }
}

/// The progress after `k` planned writes from `t` (stopping once the image is complete).
pub open spec fn advance_by(t: OtaTransfer, k: nat) -> OtaTransfer
    decreases k,
{
    if k == 0 || t.done() {
        t
    } else {
        advance_by(t.advanced(), (k - 1) as nat)
    }
}

/// After `k` chunks a transfer has written exactly the first `min(k * 4096, content_length)`
/// bytes of the image, every intermediate state keeps the transfer invariant, and the bytes
/// that came with the request head are the first bytes written.
pub proof fn lemma_transfer_progress(content_length: usize, initial_len: usize, k: nat)
    ensures
        ({
            let t = advance_by(OtaTransfer { content_length, initial_len, total_written: 0, initial_pos: 0 }, k);
            &&& t.wf()
            &&& t.content_length == content_length
            &&& t.initial_len == initial_len
            &&& t.total_written == min(k * WRITE_CHUNK_SIZE, content_length as int)
            &&& t.initial_pos == min(t.total_written as int, initial_len as int)
        }),
    decreases k,
{
    lemma_advance_by_steps(
        OtaTransfer { content_length, initial_len, total_written: 0, initial_pos: 0 },
        k,
    );
}

/// Each write goes where the image bytes written so far end: the planned chunk starts at
/// offset `total_written` and the next chunk starts right after it, so the chunks tile the image
/// in order without gaps or overlap.
pub proof fn lemma_chunk_tiles(t: OtaTransfer)
    requires
        t.wf(),
        !t.done(),
    ensures
        t.planned().offset == t.total_written as u32,
        t.planned().size > 0,
        t.advanced().total_written == t.total_written + t.planned().size,
        t.advanced().total_written <= t.content_length,
        t.advanced().wf(),
{
}

/// In a transfer from the start, the `k`-th chunk (counting from zero) is written at offset
/// `k * 4096` (as a 32-bit flash offset): every chunk lands at the number of image bytes written
/// before it, and never back over the start of the image while offsets fit.
pub proof fn lemma_chunk_offsets(content_length: usize, initial_len: usize, k: nat)
    requires
        k * WRITE_CHUNK_SIZE < content_length,
    ensures
        ({
            let t = advance_by(OtaTransfer { content_length, initial_len, total_written: 0, initial_pos: 0 }, k);
            &&& !t.done()
            &&& t.total_written == k * WRITE_CHUNK_SIZE
            &&& t.planned().offset == t.total_written as u32
            &&& k * WRITE_CHUNK_SIZE < 0x1_0000_0000 ==> t.planned().offset == k * WRITE_CHUNK_SIZE
        }),
{
    lemma_transfer_progress(content_length, initial_len, k);
    let t = advance_by(OtaTransfer { content_length, initial_len, total_written: 0, initial_pos: 0 }, k);
    assert(t.total_written == k * WRITE_CHUNK_SIZE);
    assert(t.planned().offset == t.total_written as u32);
    if k * WRITE_CHUNK_SIZE < 0x1_0000_0000 {
        let w: usize = t.total_written;
        let o: u32 = t.planned().offset;
        assert(o == w as u32);
        assert(w < 0x1_0000_0000 && o == w as u32 ==> o == w) by (bit_vector);
    }
}

proof fn lemma_advance_by_steps(t: OtaTransfer, k: nat)
    requires
        t.wf(),
        t.total_written as int % WRITE_CHUNK_SIZE as int == 0 || t.done(),
    ensures
        advance_by(t, k).wf(),
        advance_by(t, k).content_length == t.content_length,
        advance_by(t, k).initial_len == t.initial_len,
        advance_by(t, k).total_written == min(t.total_written + k * WRITE_CHUNK_SIZE, t.content_length as int),
    decreases k,
{
    if k == 0 {
    } else if t.done() {
        assert(t.total_written + k * WRITE_CHUNK_SIZE >= t.content_length) by (nonlinear_arith)
            requires
                t.total_written == t.content_length,
                k >= 1,
        ;
    } else {
        let a = t.advanced();
        assert(a.wf());
        assert(a.total_written as int % WRITE_CHUNK_SIZE as int == 0 || a.done());
        lemma_advance_by_steps(a, (k - 1) as nat);
        assert(t.total_written + k * WRITE_CHUNK_SIZE == t.total_written + WRITE_CHUNK_SIZE + (k - 1) * WRITE_CHUNK_SIZE) by (nonlinear_arith)
            requires
                k >= 1,
        ;
    }
}

} // verus!

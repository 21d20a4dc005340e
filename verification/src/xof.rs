//! The SHAKE extendable-output functions (through the `sha3` crate), the OS random source
//! (through `getrandom`), and a verified reader that hands out an XOF's output stream byte by
//! byte, re-squeezing a longer prefix whenever it runs past what it holds.
use vstd::prelude::*;

verus! {

/// The first `len` bytes of SHAKE128 absorbed on `input`.
pub uninterp spec fn shake128_output(input: Seq<u8>, len: nat) -> Seq<u8>;

/// The first `len` bytes of SHAKE256 absorbed on `input`.
pub uninterp spec fn shake256_output(input: Seq<u8>, len: nat) -> Seq<u8>;

/// Calls `sha3::Shake128`: absorbs `input`, finalizes, and reads `len` bytes. The contract
/// names the result `shake128_output(input, len)`; since the reader's output is a prefix of one
/// fixed stream, a shorter read gives a prefix of this one.
#[verifier::external_body]
pub(crate) fn shake128(input: &[u8], len: usize) -> (out: Vec<u8>)
    ensures
        out@ == shake128_output(input@, len as nat),
        out.len() == len,
        forall|m: nat| m <= len ==> #[trigger] shake128_output(input@, m) == out@.take(m as int),
{
    let mut hasher = <sha3::Shake128 as core::default::Default>::default();
    sha3::digest::Update::update(&mut hasher, input);
    let mut reader = sha3::digest::ExtendableOutput::finalize_xof(hasher);
    let mut out = std::vec![0u8; len];
    sha3::digest::XofReader::read(&mut reader, &mut out);
    out
}

/// Calls `sha3::Shake256`: absorbs `input`, finalizes, and reads `len` bytes. The contract
/// names the result `shake256_output(input, len)`; a shorter read gives a prefix of it.
#[verifier::external_body]
pub(crate) fn shake256(input: &[u8], len: usize) -> (out: Vec<u8>)
    ensures
        out@ == shake256_output(input@, len as nat),
        out.len() == len,
        forall|m: nat| m <= len ==> #[trigger] shake256_output(input@, m) == out@.take(m as int),
{
    let mut hasher = <sha3::Shake256 as core::default::Default>::default();
    sha3::digest::Update::update(&mut hasher, input);
    let mut reader = sha3::digest::ExtendableOutput::finalize_xof(hasher);
    let mut out = std::vec![0u8; len];
    sha3::digest::XofReader::read(&mut reader, &mut out);
    out
}

/// Calls `getrandom::fill` on a fresh buffer of `n` bytes. What the bytes are depends on the
/// operating system's generator, so only their number is stated; `None` when the generator
/// reports an error.
#[verifier::external_body]
pub(crate) fn os_random_bytes(n: usize) -> (r: Option<Vec<u8>>)
    ensures
        r matches Some(v) ==> v.len() == n,
{
    let mut buf = std::vec![0u8; n];
    match getrandom::fill(&mut buf) {
        Ok(()) => Some(buf),
        Err(_) => None,
    }
}

/// Which SHAKE function a stream reads.
#[derive(Clone, Copy, Debug)]
pub enum XofKind {
    Shake128,
    Shake256,
}

/// The first `len` bytes of the chosen SHAKE function on `input`.
pub open spec fn xof_output(kind: XofKind, input: Seq<u8>, len: nat) -> Seq<u8> {
    match kind {
        XofKind::Shake128 => shake128_output(input, len),
        XofKind::Shake256 => shake256_output(input, len),
    }
}

/// Byte `i` of the chosen SHAKE function's output stream on `input`.
pub open spec fn xof_byte(kind: XofKind, input: Seq<u8>, i: int) -> u8 {
    xof_output(kind, input, (i + 1) as nat)[i]
}

/// Squeezes `len` bytes of the chosen SHAKE function.
pub fn xof_squeeze(kind: XofKind, input: &[u8], len: usize) -> (out: Vec<u8>)
    ensures
        out@ == xof_output(kind, input@, len as nat),
        out.len() == len,
        forall|i: int| 0 <= i < len ==> #[trigger] out@[i] == xof_byte(kind, input@, i),
{
    let out = match kind {
        XofKind::Shake128 => shake128(input, len),
        XofKind::Shake256 => shake256(input, len),
    };
    proof {
        assert forall|i: int| 0 <= i < len implies #[trigger] out@[i] == xof_byte(kind, input@, i) by {
            assert(xof_output(kind, input@, (i + 1) as nat) == out@.take(i + 1));
        }
    }
    out
}

/// How many bytes of one output stream a sampler may read before it gives up. Every sampler in
/// this crate needs well under a kilobyte on all but a vanishing fraction of seeds.
pub const XOF_BUDGET: usize = 0x10_0000;

/// Bytes held after the first squeeze.
pub const XOF_FIRST_SQUEEZE: usize = 0x400;

/// A reader over one SHAKE output stream: `pos` bytes have been handed out so far.
pub struct XofStream {
    pub kind: XofKind,
    pub input: Vec<u8>,
    pub buf: Vec<u8>,
    pub pos: usize,
}

impl XofStream {
    /// The reader holds a correct prefix of the stream, at most `XOF_BUDGET` bytes long.
    pub open spec fn wf(&self) -> bool {
        &&& self.pos <= self.buf.len() <= XOF_BUDGET
        &&& forall|i: int|
            0 <= i < self.buf.len() ==> #[trigger] self.buf@[i] == xof_byte(self.kind, self.input@, i)
    }

    /// Starts reading the stream of `kind` on `input` from its first byte.
    pub fn new(kind: XofKind, input: Vec<u8>) -> (s: XofStream)
        ensures
            s.wf(),
            s.kind == kind,
            s.input@ == input@,
            s.pos == 0,
    {
        let buf = xof_squeeze(kind, input.as_slice(), XOF_FIRST_SQUEEZE);
        XofStream { kind, input, buf, pos: 0 }
    }

    /// The next `k` bytes of the stream, or `None` when they would run past `XOF_BUDGET`.
    pub fn read(&mut self, k: usize) -> (r: Option<Vec<u8>>)
        requires
            old(self).wf(),
        ensures
            final(self).wf(),
            final(self).kind == old(self).kind,
            final(self).input@ == old(self).input@,
            old(self).pos + k <= XOF_BUDGET ==> {
                &&& r matches Some(v)
                &&& v.len() == k
                &&& forall|i: int|
                    0 <= i < k ==> #[trigger] v@[i] == xof_byte(
                        old(self).kind,
                        old(self).input@,
                        old(self).pos + i,
                    )
                &&& final(self).pos == old(self).pos + k
            },
            old(self).pos + k > XOF_BUDGET ==> r is None && final(self).pos == old(self).pos,
    {
        if k > XOF_BUDGET - self.pos {
            return None;
        }
        if self.pos + k > self.buf.len() {
            let want = if self.buf.len() <= XOF_BUDGET / 2 {
                self.buf.len() * 2
            } else {
                XOF_BUDGET
            };
            let new_len = if want < self.pos + k {
                self.pos + k
            } else {
                want
            };
            self.buf = xof_squeeze(self.kind, self.input.as_slice(), new_len);
        }
        let mut v: Vec<u8> = Vec::new();
        let mut i: usize = 0;
        while i < k
            invariant
                self.wf(),
                self.pos + k <= self.buf.len(),
                0 <= i <= k,
                v.len() == i,
                forall|j: int|
                    0 <= j < i ==> #[trigger] v@[j] == xof_byte(self.kind, self.input@, self.pos + j),
            decreases k - i,
        {
            v.push(self.buf[self.pos + i]);
            i = i + 1;
        }
        self.pos = self.pos + k;
        Some(v)
    }

    /// Makes the reader hold at least `len` bytes of the stream; `false` (and nothing read)
    /// when `len` is beyond `XOF_BUDGET`.
    pub fn fill_to(&mut self, len: usize) -> (ok: bool)
        requires
            old(self).wf(),
        ensures
            final(self).wf(),
            final(self).kind == old(self).kind,
            final(self).input@ == old(self).input@,
            final(self).pos == old(self).pos,
            ok == (len <= XOF_BUDGET),
            ok ==> final(self).buf.len() >= len,
    {
        if len > XOF_BUDGET {
            return false;
        }
        if len > self.buf.len() {
            let want = if self.buf.len() <= XOF_BUDGET / 2 {
                self.buf.len() * 2
            } else {
                XOF_BUDGET
            };
            let new_len = if want < len {
                len
            } else {
                want
            };
            self.buf = xof_squeeze(self.kind, self.input.as_slice(), new_len);
        }
        true
    }
}

} // verus!

//! Position-tracking buffered reader and writer over in-memory segment
//! contents.
//!
//! Each one exposes a `pos` equal to the byte offset at the boundary of the
//! buffer: every write advances the writer's `pos` by the bytes accepted,
//! every read advances the reader's `pos` by the bytes returned, and a seek
//! replaces the reader's `pos` with the absolute offset.  The offsets read
//! off these wrappers around a single encode or decode call become the index
//! entries of the store.
use vstd::prelude::*;

verus! {

/// A writer that appends to a byte buffer and tracks the offset at which
/// the next write lands.
pub struct BufWriterWithPos {
    data: Vec<u8>,
    pos: u64,
}

impl View for BufWriterWithPos {
    type V = Seq<u8>;

    closed spec fn view(&self) -> Seq<u8> {
        self.data@
    }
}

impl BufWriterWithPos {
    /// `pos` always equals the length of the written contents.
    pub closed spec fn wf(&self) -> bool {
        self.pos == self.data@.len()
    }

    pub closed spec fn spec_pos(&self) -> u64 {
        self.pos
    }

    /// What `wf` guarantees to every caller.
    pub broadcast proof fn lemma_wf_pos(&self)
        ensures
            #[trigger] self.wf() ==> self.spec_pos() == self@.len(),
    {
    }

    /// Starts writing at the end of `data`.
    pub fn new(data: Vec<u8>) -> (r: BufWriterWithPos)
        requires
            data@.len() <= u64::MAX,
        ensures
            r.wf(),
            r@ == data@,
    {
        let pos = data.len() as u64;
        BufWriterWithPos { data, pos }
    }

    pub fn pos(&self) -> (r: u64)
        ensures
            r == self.spec_pos(),
    {
        self.pos
    }

    /// Appends `buf` and advances `pos` by exactly the bytes accepted.
    pub fn write(&mut self, buf: &[u8])
        requires
            old(self).wf(),
            old(self)@.len() + buf@.len() <= u64::MAX,
        ensures
            final (self).wf(),
            final (self)@ == old(self)@ + buf@,
            final (self).spec_pos() == old(self).spec_pos() + buf@.len(),
    {
        self.data.extend_from_slice(buf);
        self.pos = self.pos + buf.len() as u64;
    }

    /// Empties the buffer to the underlying contents; in this in-memory
    /// form every write is already down, so nothing changes.
    pub fn flush(&mut self)
        ensures
            final (self)@ == old(self)@,
            final (self).spec_pos() == old(self).spec_pos(),
            final (self).wf() == old(self).wf(),
    {
    }

    pub fn contents(&self) -> (r: &Vec<u8>)
        ensures
            r@ == self@,
    {
        &self.data
    }
}

/// A reader over fixed byte contents that tracks the offset of the next
/// read.
pub struct BufReaderWithPos {
    data: Vec<u8>,
    pos: u64,
}

impl View for BufReaderWithPos {
    type V = Seq<u8>;

    closed spec fn view(&self) -> Seq<u8> {
        self.data@
    }
}

impl BufReaderWithPos {
    pub closed spec fn spec_pos(&self) -> u64 {
        self.pos
    }

    /// Starts reading at offset zero.
    pub fn new(data: Vec<u8>) -> (r: BufReaderWithPos)
        ensures
            r@ == data@,
            r.spec_pos() == 0,
    {
        BufReaderWithPos { data, pos: 0 }
    }

    pub fn pos(&self) -> (r: u64)
        ensures
            r == self.spec_pos(),
    {
        self.pos
    }

    /// Replaces `pos` with the absolute offset `to`.
    pub fn seek(&mut self, to: u64)
        ensures
            final (self)@ == old(self)@,
            final (self).spec_pos() == to,
    {
        self.pos = to;
    }

    /// Reads exactly `n` bytes at `pos` and advances `pos` past them;
    /// yields nothing if fewer than `n` bytes remain.
    pub fn read(&mut self, n: usize) -> (r: Option<Vec<u8>>)
        ensures
            final (self)@ == old(self)@,
            (match r {
                Some(out) => old(self).spec_pos() + n <= old(self)@.len() && out@ == old(
                    self,
                )@.subrange(
                    old(self).spec_pos() as int,
                    old(self).spec_pos() + n,
                ) && final (self).spec_pos() == old(self).spec_pos() + n,
                None => old(self).spec_pos() + n > old(self)@.len() && final (self).spec_pos()
                    == old(self).spec_pos(),
            }),
    {
        let len = self.data.len();
        if self.pos > len as u64 || n as u64 > len as u64 - self.pos {
            return None;
        }
        let start = self.pos as usize;
        let out_slice = vstd::slice::slice_subrange(self.data.as_slice(), start, start + n);
        let mut out: Vec<u8> = Vec::new();
        out.extend_from_slice(out_slice);
        self.pos = self.pos + n as u64;
        Some(out)
    }

    pub fn contents(&self) -> (r: &Vec<u8>)
        ensures
            r@ == self@,
    {
        &self.data
    }
}

} // verus!

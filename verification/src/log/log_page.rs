use vstd::prelude::*;

use crate::file::page::{
    bytes_at, bytes_readable, int_at, lemma_bytes_write_read, lemma_int_write_frame, with_bytes, with_int,
};
use crate::file::Page;

verus! {

// A log page holds at offset 0 its boundary, where its newest record starts;
// records fill the page from its end down, each a length-prefixed byte string.

/// The boundary of the log page `b`.
pub open spec fn log_boundary(b: Seq<u8>) -> int {
    int_at(b, 0) as int
}

/// Whether the log page `b` has room for a record of `len` bytes below its
/// boundary, above the boundary field.
pub open spec fn log_has_room(b: Seq<u8>, len: int) -> bool {
    log_boundary(b) - (len + 4) >= 4
}

/// The log page `b` with the record `rec` written just below its boundary,
/// which moves down to the record.
pub open spec fn log_with_record(b: Seq<u8>, rec: Seq<u8>) -> Seq<u8> {
    let pos = log_boundary(b) - (rec.len() + 4);
    with_int(with_bytes(b, pos, rec), 0, pos as i32)
}

/// Whether the log page `p` has room for a record of `rec_len` bytes.
pub fn log_room(p: &Page, rec_len: usize) -> (r: bool)
    requires
        p@.len() >= 4,
        rec_len <= i32::MAX,
    ensures
        r == log_has_room(p@, rec_len as int),
{
    let boundary = p.get_int(0) as i64;
    let needed = rec_len as i64 + 4;
    boundary - needed >= 4
}

/// Makes `p` an empty log page of a block of `block_size` bytes: its
/// boundary is the end of the block.
pub fn log_start(p: &mut Page, block_size: i32)
    requires
        old(p)@.len() >= 4,
    ensures
        final(p)@ == with_int(old(p)@, 0, block_size),
        log_boundary(final(p)@) == block_size,
{
    p.set_int(0, block_size);
    proof {
        crate::file::page::lemma_int_write_read(old(p)@, 0, block_size);
    }
}

/// Writes the record `rec` just below the boundary of the log page `p`, and
/// moves the boundary down to it; returns where the record starts.
pub fn log_append(p: &mut Page, rec: &[u8]) -> (recpos: i32)
    requires
        log_has_room(old(p)@, rec@.len() as int),
        log_boundary(old(p)@) <= old(p)@.len(),
        old(p)@.len() >= 4,
        rec@.len() <= i32::MAX,
    ensures
        recpos == log_boundary(old(p)@) - (rec@.len() + 4),
        final(p)@ == log_with_record(old(p)@, rec@),
{
    let boundary = p.get_int(0);
    let recsize = rec.len() as i32;
    let recpos = boundary - (recsize + 4);
    p.set_bytes(recpos as usize, rec);
    p.set_int(0, recpos);
    recpos
}

/// The record stored at `pos` of the log page `p`, and the position of the
/// record after it.
pub fn log_read(p: &Page, pos: usize) -> (r: (Vec<u8>, usize))
    requires
        bytes_readable(p@, pos as int),
    ensures
        r.0@ == bytes_at(p@, pos as int),
        r.1 == pos + 4 + r.0@.len(),
{
    let _size = p.size();
    let rec = p.get_bytes(pos);
    let next = pos + 4 + rec.len();
    (rec, next)
}

/// A record appended to a log page is read back at the position the append
/// returns, and the boundary then names that position.
pub proof fn lemma_log_append_read(b: Seq<u8>, rec: Seq<u8>)
    requires
        log_has_room(b, rec.len() as int),
        log_boundary(b) <= b.len(),
        rec.len() <= i32::MAX,
    ensures
        ({
            let pos = log_boundary(b) - (rec.len() + 4);
            &&& log_boundary(log_with_record(b, rec)) == pos
            &&& bytes_readable(log_with_record(b, rec), pos)
            &&& bytes_at(log_with_record(b, rec), pos) == rec
        }),
{
    let pos = log_boundary(b) - (rec.len() + 4);
    let b1 = with_bytes(b, pos, rec);
    lemma_bytes_write_read(b, pos, rec);
    crate::file::page::lemma_int_write_read(b1, 0, pos as i32);
    let b2 = with_int(b1, 0, pos as i32);
    assert forall|k: int| pos <= k < pos + 4 + rec.len() implies b2[k] == b1[k] by {
        lemma_int_write_frame(b1, 0, pos as i32, k);
    }
    assert(int_at(b2, pos) == int_at(b1, pos));
    assert(bytes_at(b2, pos) =~= bytes_at(b1, pos));
}

/// What the log manager does with a record it is asked to append.
#[derive(Debug, Clone, Copy, PartialEq, Eq, Structural)]
pub enum LogStep {
    /// The record can never fit in a block: it is refused.
    TooLarge,
    /// The current page has room: the record goes into it.
    Append,
    /// The current page is full: it is written out, a new block is started,
    /// and the record goes into the new page.
    NewBlock,
}

/// The log manager's decision for a record of `rec_len` bytes, given its
/// current page `p` and the block size `block_size`, and the number the
/// record then gets: one more than `latest_lsn`.
pub fn log_append_step(p: &Page, rec_len: usize, block_size: usize, latest_lsn: i32) -> (r: (LogStep, i32))
    requires
        p@.len() >= 4,
        latest_lsn < i32::MAX,
    ensures
        r.0 == (if rec_len > i32::MAX || rec_len + 8 > block_size {
            LogStep::TooLarge
        } else if log_has_room(p@, rec_len as int) {
            LogStep::Append
        } else {
            LogStep::NewBlock
        }),
        r.1 == latest_lsn + 1,
{
    if rec_len > i32::MAX as usize || rec_len > block_size || block_size - rec_len < 8 {
        return (LogStep::TooLarge, latest_lsn + 1);
    }
    if log_room(p, rec_len) {
        (LogStep::Append, latest_lsn + 1)
    } else {
        (LogStep::NewBlock, latest_lsn + 1)
    }
}

/// Whether a request to flush the log up to `lsn` writes the current page:
/// when `lsn` is not below the last record number already written.
pub fn log_flush_needed(lsn: i32, last_saved_lsn: i32) -> (r: bool)
    ensures
        r == (lsn >= last_saved_lsn),
{
    lsn >= last_saved_lsn
}

} // verus!

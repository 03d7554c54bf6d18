use vstd::prelude::*;

use crate::file::BlockId;

verus! {

/// Whether the buffer assignment `a` is the block `blk`.
pub open spec fn assigned_to(a: Option<BlockId>, blk: BlockId) -> bool {
    a matches Some(b) && b.spec_file_name() == blk.spec_file_name() && b.spec_number() == blk.spec_number()
}

/// The first buffer of the pool assigned to `blk`, given the block each
/// buffer is assigned to; `None` when no buffer is.
pub fn find_existing_buffer(blks: &Vec<Option<BlockId>>, blk: &BlockId) -> (r: Option<usize>)
    ensures
        match r {
            Some(i) => i < blks@.len() && assigned_to(blks@[i as int], *blk) && forall|j: int|
                0 <= j < i ==> !assigned_to(#[trigger] blks@[j], *blk),
            None => forall|j: int| 0 <= j < blks@.len() ==> !assigned_to(#[trigger] blks@[j], *blk),
        },
{
    let mut i: usize = 0;
    while i < blks.len()
        invariant
            i <= blks@.len(),
            forall|j: int| 0 <= j < i ==> !assigned_to(#[trigger] blks@[j], *blk),
        decreases blks@.len() - i,
    {
        match &blks[i] {
            Some(b) => {
                if b.equals(blk) {
                    return Some(i);
                }
            },
            None => {},
        }
        i = i + 1;
    }
    None
}

/// The first buffer of the pool that no one pins, given the pin count of
/// each buffer; `None` when every buffer is pinned.
pub fn choose_unpinned_buffer(pins: &Vec<usize>) -> (r: Option<usize>)
    ensures
        match r {
            Some(i) => i < pins@.len() && pins@[i as int] == 0 && forall|j: int| 0 <= j < i ==> #[trigger] pins@[j] > 0,
            None => forall|j: int| 0 <= j < pins@.len() ==> #[trigger] pins@[j] > 0,
        },
{
    let mut i: usize = 0;
    while i < pins.len()
        invariant
            i <= pins@.len(),
            forall|j: int| 0 <= j < i ==> #[trigger] pins@[j] > 0,
        decreases pins@.len() - i,
    {
        if pins[i] == 0 {
            return Some(i);
        }
        i = i + 1;
    }
    None
}

/// The number of buffers that no one pins, given the pin count of each.
pub open spec fn count_unpinned(pins: Seq<usize>) -> nat
    decreases pins.len(),
{
    if pins.len() == 0 {
        0
    } else {
        count_unpinned(pins.drop_last()) + if pins.last() == 0 {
            1nat
        } else {
            0nat
        }
    }
}

/// Setting the pin count of buffer `i` to `v` changes the number of unpinned
/// buffers by whether `v` is 0, less whether the old count was 0.
pub proof fn lemma_count_unpinned_update(pins: Seq<usize>, i: int, v: usize)
    requires
        0 <= i < pins.len(),
    ensures
        count_unpinned(pins.update(i, v)) + (if pins[i] == 0 { 1int } else { 0int }) == count_unpinned(pins) + (
        if v == 0 { 1int } else { 0int }),
    decreases pins.len(),
{
    let u = pins.update(i, v);
    if i == pins.len() - 1 {
        assert(u.drop_last() =~= pins.drop_last());
    } else {
        assert(u.drop_last() =~= pins.drop_last().update(i, v));
        lemma_count_unpinned_update(pins.drop_last(), i, v);
    }
}

/// No more buffers are unpinned than there are buffers.
pub proof fn lemma_count_unpinned_bound(pins: Seq<usize>)
    ensures
        count_unpinned(pins) <= pins.len(),
    decreases pins.len(),
{
    if pins.len() > 0 {
        lemma_count_unpinned_bound(pins.drop_last());
    }
}

/// The bookkeeping of a buffer pool: the block each buffer is assigned to,
/// how many clients pin each buffer, and how many buffers no one pins.
pub struct BufferPool {
    pub blks: Vec<Option<BlockId>>,
    pub pins: Vec<usize>,
    pub num_available: usize,
}

impl BufferPool {
    /// Every buffer has an assignment and a pin count, and the available
    /// count is the number of unpinned buffers.
    pub open spec fn wf(&self) -> bool {
        &&& self.blks@.len() == self.pins@.len()
        &&& self.num_available == count_unpinned(self.pins@)
    }

    /// A pool of `numbuffs` buffers, none assigned, none pinned, all available.
    pub fn new(numbuffs: usize) -> (r: Self)
        ensures
            r.wf(),
            r.blks@ == Seq::new(numbuffs as nat, |j: int| None::<BlockId>),
            r.pins@ == Seq::new(numbuffs as nat, |j: int| 0usize),
            r.num_available == numbuffs,
    {
        let mut blks: Vec<Option<BlockId>> = Vec::new();
        let mut pins: Vec<usize> = Vec::new();
        let mut k: usize = 0;
        while k < numbuffs
            invariant
                k <= numbuffs,
                blks@ == Seq::new(k as nat, |j: int| None::<BlockId>),
                pins@ == Seq::new(k as nat, |j: int| 0usize),
                count_unpinned(pins@) == k,
            decreases numbuffs - k,
        {
            blks.push(None);
            pins.push(0);
            proof {
                assert(pins@.drop_last() =~= Seq::new(k as nat, |j: int| 0usize));
            }
            k = k + 1;
            proof {
                assert(blks@ =~= Seq::new(k as nat, |j: int| None::<BlockId>));
                assert(pins@ =~= Seq::new(k as nat, |j: int| 0usize));
            }
        }
        BufferPool { blks, pins, num_available: numbuffs }
    }

    /// Chooses the buffer that a pin of `blk` takes and records the pin: the
    /// first buffer already assigned to `blk`, else the first unpinned buffer,
    /// which is assigned to `blk` (the flag of the result says so); `None`,
    /// with nothing changed, when neither exists.
    pub fn pin_step(&mut self, blk: &BlockId) -> (r: Option<(usize, bool)>)
        requires
            old(self).wf(),
            forall|j: int| 0 <= j < old(self).pins@.len() ==> #[trigger] old(self).pins@[j] < usize::MAX,
        ensures
            final(self).wf(),
            match r {
                Some((i, assigned)) => {
                    &&& i < old(self).pins@.len()
                    &&& final(self).pins@ == old(self).pins@.update(i as int, (old(self).pins@[i as int] + 1) as usize)
                    &&& !assigned ==> {
                        &&& assigned_to(old(self).blks@[i as int], *blk)
                        &&& forall|j: int| 0 <= j < i ==> !assigned_to(#[trigger] old(self).blks@[j], *blk)
                        &&& final(self).blks@ == old(self).blks@
                    }
                    &&& assigned ==> {
                        &&& forall|j: int| 0 <= j < old(self).blks@.len() ==> !assigned_to(#[trigger] old(self).blks@[j], *blk)
                        &&& old(self).pins@[i as int] == 0
                        &&& forall|j: int| 0 <= j < i ==> #[trigger] old(self).pins@[j] > 0
                        &&& final(self).blks@ == old(self).blks@.update(i as int, final(self).blks@[i as int])
                        &&& assigned_to(final(self).blks@[i as int], *blk)
                    }
                },
                None => {
                    &&& forall|j: int| 0 <= j < old(self).blks@.len() ==> !assigned_to(#[trigger] old(self).blks@[j], *blk)
                    &&& forall|j: int| 0 <= j < old(self).pins@.len() ==> #[trigger] old(self).pins@[j] > 0
                    &&& *final(self) == *old(self)
                },
            },
    {
        let ghost p0 = self.pins@;
        proof {
            lemma_count_unpinned_bound(p0);
        }
        match find_existing_buffer(&self.blks, blk) {
            Some(i) => {
                let c = self.pins[i];
                proof {
                    lemma_count_unpinned_update(p0, i as int, (c + 1) as usize);
                }
                if c == 0 {
                    self.num_available = self.num_available - 1;
                }
                self.pins.set(i, c + 1);
                Some((i, false))
            },
            None => {
                match choose_unpinned_buffer(&self.pins) {
                    Some(i) => {
                        proof {
                            lemma_count_unpinned_update(p0, i as int, 1usize);
                        }
                        self.blks.set(i, Some(blk.clone()));
                        self.num_available = self.num_available - 1;
                        self.pins.set(i, 1);
                        Some((i, true))
                    },
                    None => None,
                }
            },
        }
    }

    /// Records that one client unpins buffer `i`; it becomes available when
    /// no one pins it any more. Unpinning a buffer that no one pins changes
    /// nothing.
    pub fn unpin_step(&mut self, i: usize)
        requires
            old(self).wf(),
            i < old(self).pins@.len(),
        ensures
            final(self).wf(),
            final(self).blks@ == old(self).blks@,
            old(self).pins@[i as int] == 0 ==> *final(self) == *old(self),
            old(self).pins@[i as int] > 0 ==> final(self).pins@ == old(self).pins@.update(
                i as int,
                (old(self).pins@[i as int] - 1) as usize,
            ),
            final(self).num_available == old(self).num_available + if old(self).pins@[i as int] == 1 {
                1int
            } else {
                0int
            },
    {
        if self.pins[i] == 0 {
            return;
        }
        let ghost p0 = self.pins@;
        let c = self.pins[i] - 1;
        self.pins.set(i, c);
        proof {
            lemma_count_unpinned_update(p0, i as int, c);
            lemma_count_unpinned_bound(self.pins@);
            assert(self.pins@.len() == self.pins.len());
        }
        if c == 0 {
            self.num_available = self.num_available + 1;
        }
    }
}

} // verus!

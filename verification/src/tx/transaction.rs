use vstd::prelude::*;

use crate::file::page::{int_at, string_at, string_readable, with_bytes, with_int, Page};
use crate::file::BlockId;
use vstd::utf8::encode_utf8;

verus! {

/// The index of the first name equal to `name`, or the number of names where none is.
pub open spec fn find_name(names: Seq<Seq<char>>, name: Seq<char>) -> int
    decreases names.len(),
{
    if names.len() == 0 {
        0
    } else if names[0] == name {
        0
    } else {
        1 + find_name(names.drop_first(), name)
    }
}

/// `find_name` is the first index that carries the name.
pub proof fn lemma_find_name(names: Seq<Seq<char>>, name: Seq<char>)
    ensures
        0 <= find_name(names, name) <= names.len(),
        find_name(names, name) < names.len() ==> names[find_name(names, name)] == name,
        forall|j: int| 0 <= j < find_name(names, name) ==> names[j] != name,
    decreases names.len(),
{
    if names.len() > 0 && names[0] != name {
        lemma_find_name(names.drop_first(), name);
        assert forall|j: int| 0 <= j < find_name(names, name) implies names[j] != name by {
            if j > 0 {
                assert(names[j] == names.drop_first()[j - 1]);
            }
        }
    }
}

/// The first index carrying a name is the only one that can, once found.
pub proof fn lemma_find_name_at(names: Seq<Seq<char>>, name: Seq<char>, i: int)
    requires
        0 <= i < names.len(),
        names[i] == name,
        forall|j: int| 0 <= j < i ==> names[j] != name,
    ensures
        find_name(names, name) == i,
    decreases names.len(),
{
    if i > 0 {
        assert forall|j: int| 0 <= j < i - 1 implies names.drop_first()[j] != name by {
            assert(names.drop_first()[j] == names[j + 1]);
        }
        lemma_find_name_at(names.drop_first(), name, i - 1);
    }
}

/// A name is not found among names that do not hold it.
pub proof fn lemma_find_name_absent(names: Seq<Seq<char>>, name: Seq<char>)
    requires
        forall|j: int| 0 <= j < names.len() ==> names[j] != name,
    ensures
        find_name(names, name) == names.len(),
    decreases names.len(),
{
    if names.len() > 0 {
        assert forall|j: int| 0 <= j < names.drop_first().len() implies names.drop_first()[j]
            != name by {
            assert(names.drop_first()[j] == names[j + 1]);
        }
        lemma_find_name_absent(names.drop_first(), name);
    }
}

struct FileData {
    name: String,
    blocks: Vec<Page>,
}

/// The blocks of the database files that a transaction reads and writes.
/// Each file is a sequence of blocks of one size, named by its file name.
pub struct Transaction {
    block_size: usize,
    files: Vec<FileData>,
}

impl Transaction {
    spec fn names(&self) -> Seq<Seq<char>> {
        Seq::new(self.files@.len(), |i: int| self.files@[i].name@)
    }

    spec fn file_view(&self, i: int) -> Seq<Seq<u8>> {
        Seq::new(self.files@[i].blocks@.len(), |j: int| self.files@[i].blocks@[j]@)
    }

    /// The size in bytes of every block.
    pub closed spec fn spec_block_size(&self) -> nat {
        self.block_size as nat
    }

    /// The blocks of the file `name`, in order; none for a file not yet created.
    pub closed spec fn blocks(&self, name: Seq<char>) -> Seq<Seq<u8>> {
        let i = find_name(self.names(), name);
        if i < self.files@.len() {
            self.file_view(i)
        } else {
            Seq::empty()
        }
    }

    /// The contents of the block `blk`.
    pub open spec fn block(&self, blk: BlockId) -> Seq<u8> {
        self.blocks(blk.spec_file_name())[blk.spec_number() as int]
    }

    /// Whether `new_tx` holds the same blocks as `self`, but perhaps for the
    /// block `blk`, which then holds `bytes`.
    pub open spec fn same_but(&self, new_tx: Transaction, blk: BlockId, bytes: Seq<u8>) -> bool {
        &&& new_tx.spec_block_size() == self.spec_block_size()
        &&& new_tx.blocks(blk.spec_file_name()) == self.blocks(blk.spec_file_name()).update(
            blk.spec_number() as int,
            bytes,
        )
        &&& forall|name: Seq<char>|
            name != blk.spec_file_name() ==> #[trigger] new_tx.blocks(name) == self.blocks(name)
    }

    /// Two changes of one block make one change of that block.
    pub proof fn lemma_same_but_trans(
        &self,
        mid: Transaction,
        last: Transaction,
        blk: BlockId,
        x: Seq<u8>,
        y: Seq<u8>,
    )
        requires
            self.has_block(blk),
            self.same_but(mid, blk, x),
            mid.same_but(last, blk, y),
        ensures
            self.same_but(last, blk, y),
    {
        assert(last.blocks(blk.spec_file_name()) =~= self.blocks(blk.spec_file_name()).update(
            blk.spec_number() as int,
            y,
        ));
    }

    /// A transaction is the same as itself but for any block, which holds what it held.
    pub proof fn lemma_same_but_refl(&self, blk: BlockId)
        requires
            self.has_block(blk),
        ensures
            self.same_but(*self, blk, self.block(blk)),
    {
        assert(self.blocks(blk.spec_file_name()) =~= self.blocks(blk.spec_file_name()).update(
            blk.spec_number() as int,
            self.block(blk),
        ));
    }

    /// A change of one block leaves every other block as it was.
    pub proof fn lemma_same_but_other(&self, new_tx: Transaction, blk: BlockId, bytes: Seq<u8>, other: BlockId)
        requires
            self.same_but(new_tx, blk, bytes),
            self.has_block(blk),
            self.has_block(other),
            other.spec_file_name() != blk.spec_file_name() || other.spec_number() != blk.spec_number(),
        ensures
            new_tx.has_block(other),
            new_tx.block(other) == self.block(other),
    {
        if other.spec_file_name() != blk.spec_file_name() {
            assert(new_tx.blocks(other.spec_file_name()) == self.blocks(other.spec_file_name()));
        }
    }

    /// After a change of block `blk` to `bytes`, `blk` holds `bytes`.
    pub proof fn lemma_same_but_self(&self, new_tx: Transaction, blk: BlockId, bytes: Seq<u8>)
        requires
            self.same_but(new_tx, blk, bytes),
            self.has_block(blk),
        ensures
            new_tx.has_block(blk),
            new_tx.block(blk) == bytes,
    {
    }

    /// Whether `new_tx` holds the same blocks as `self`, in files of the same
    /// lengths, but perhaps for the blocks `a` and `b`.
    pub open spec fn same_except2(&self, new_tx: Transaction, a: BlockId, b: BlockId) -> bool {
        &&& new_tx.spec_block_size() == self.spec_block_size()
        &&& forall|name: Seq<char>| #[trigger] new_tx.blocks(name).len() == self.blocks(name).len()
        &&& forall|name: Seq<char>, n: int|
            0 <= n < self.blocks(name).len() && !(name == a.spec_file_name() && n == a.spec_number())
                && !(name == b.spec_file_name() && n == b.spec_number()) ==> #[trigger] new_tx.blocks(
                name,
            )[n] == self.blocks(name)[n]
    }

    /// A change of block `a`, or of block `b`, changes only those blocks.
    pub proof fn lemma_same_but_except2(&self, new_tx: Transaction, a: BlockId, x: Seq<u8>, b: BlockId)
        requires
            self.same_but(new_tx, a, x),
            self.has_block(a),
        ensures
            self.same_except2(new_tx, a, b),
            self.same_except2(new_tx, b, a),
    {
        assert forall|name: Seq<char>| #[trigger] new_tx.blocks(name).len() == self.blocks(name).len() by {
            if name != a.spec_file_name() {
                assert(new_tx.blocks(name) == self.blocks(name));
            }
        }
        assert forall|name: Seq<char>, n: int|
            0 <= n < self.blocks(name).len() && !(name == a.spec_file_name() && n == a.spec_number())
                implies #[trigger] new_tx.blocks(name)[n] == self.blocks(name)[n] by {
            if name != a.spec_file_name() {
                assert(new_tx.blocks(name) == self.blocks(name));
            }
        }
    }

    /// Changes of only `a` and `b`, one after another, change only `a` and `b`.
    pub proof fn lemma_same_except2_trans(&self, mid: Transaction, last: Transaction, a: BlockId, b: BlockId)
        requires
            self.same_except2(mid, a, b),
            mid.same_except2(last, a, b),
        ensures
            self.same_except2(last, a, b),
    {
        assert forall|name: Seq<char>| #[trigger] last.blocks(name).len() == self.blocks(name).len() by {
            assert(mid.blocks(name).len() == self.blocks(name).len());
        }
        assert forall|name: Seq<char>, n: int|
            0 <= n < self.blocks(name).len() && !(name == a.spec_file_name() && n == a.spec_number())
                && !(name == b.spec_file_name() && n == b.spec_number()) implies #[trigger] last.blocks(
                name,
            )[n] == self.blocks(name)[n] by {
            assert(mid.blocks(name).len() == self.blocks(name).len());
            assert(mid.blocks(name)[n] == self.blocks(name)[n]);
        }
    }

    /// A transaction is the same as itself but for any two blocks.
    pub proof fn lemma_same_except2_refl(&self, a: BlockId, b: BlockId)
        ensures
            self.same_except2(*self, a, b),
    {
    }

    /// Whether `blk` is a block of its file.
    pub open spec fn has_block(&self, blk: BlockId) -> bool {
        0 <= blk.spec_number() < self.blocks(blk.spec_file_name()).len()
    }

    /// The files have distinct names, every block has the block size, and
    /// block numbers fit in an `i32`.
    pub closed spec fn wf(&self) -> bool {
        &&& forall|i: int, j: int|
            0 <= i < j < self.files@.len() ==> self.files@[i].name@ != self.files@[j].name@
        &&& forall|i: int, j: int|
            #![trigger self.files@[i].blocks@[j]]
            0 <= i < self.files@.len() && 0 <= j < self.files@[i].blocks@.len()
                ==> self.files@[i].blocks@[j]@.len() == self.block_size
        &&& forall|i: int| 0 <= i < self.files@.len() ==> #[trigger] self.files@[i].blocks@.len() < i32::MAX
    }

    /// Every block of a well-formed transaction has the block size.
    pub proof fn lemma_block_len(&self, name: Seq<char>, n: int)
        requires
            self.wf(),
            0 <= n < self.blocks(name).len(),
        ensures
            self.blocks(name)[n].len() == self.spec_block_size(),
            self.blocks(name).len() < i32::MAX,
    {
        lemma_find_name(self.names(), name);
        let i = find_name(self.names(), name);
        assert(self.files@[i].blocks@[n]@.len() == self.block_size);
    }

    /// A transaction over no files yet, with blocks of `block_size` bytes.
    pub fn new(block_size: usize) -> (r: Self)
        ensures
            r.wf(),
            r.spec_block_size() == block_size,
            forall|name: Seq<char>| #[trigger] r.blocks(name) == Seq::<Seq<u8>>::empty(),
    {
        Transaction { block_size, files: Vec::new() }
    }

    /// The block size fits in a `usize`.
    pub proof fn lemma_block_size_bound(&self)
        ensures
            self.spec_block_size() <= usize::MAX,
    {
    }

    /// The size in bytes of every block.
    pub fn block_size(&self) -> (r: usize)
        ensures
            r == self.spec_block_size(),
    {
        self.block_size
    }

    /// The position of the file `filename` among the files, or their number.
    fn find(&self, filename: &str) -> (r: usize)
        ensures
            r == find_name(self.names(), filename@),
    {
        proof {
            lemma_find_name(self.names(), filename@);
        }
        let target = filename.to_owned();
        let mut i: usize = 0;
        while i < self.files.len()
            invariant
                target@ == filename@,
                i <= self.files@.len(),
                forall|j: int| 0 <= j < i ==> self.names()[j] != filename@,
            decreases self.files@.len() - i,
        {
            if self.files[i].name == target {
                proof {
                    lemma_find_name_at(self.names(), filename@, i as int);
                }
                return i;
            }
            i = i + 1;
        }
        proof {
            lemma_find_name_absent(self.names(), filename@);
        }
        i
    }

    /// The number of blocks of the file `filename`.
    pub fn size(&self, filename: &str) -> (r: usize)
        requires
            self.wf(),
        ensures
            r == self.blocks(filename@).len(),
    {
        let i = self.find(filename);
        if i < self.files.len() {
            self.files[i].blocks.len()
        } else {
            0
        }
    }

    /// The integer at `offset` of the block `blk`.
    pub fn get_int(&self, blk: &BlockId, offset: usize) -> (r: i32)
        requires
            self.wf(),
            self.has_block(*blk),
            offset + 4 <= self.spec_block_size(),
        ensures
            r == int_at(self.block(*blk), offset as int),
    {
        let i = self.find(blk.file_name());
        let j = blk.number() as usize;
        proof {
            lemma_find_name(self.names(), blk.spec_file_name());
        }
        assert(self.files@[i as int].blocks@[j as int]@.len() == self.block_size);
        self.files[i].blocks[j].get_int(offset)
    }

    /// The string at `offset` of the block `blk`.
    pub fn get_string(&self, blk: &BlockId, offset: usize) -> (r: String)
        requires
            self.wf(),
            self.has_block(*blk),
            string_readable(self.block(*blk), offset as int),
        ensures
            r@ == string_at(self.block(*blk), offset as int),
    {
        let i = self.find(blk.file_name());
        let j = blk.number() as usize;
        proof {
            lemma_find_name(self.names(), blk.spec_file_name());
        }
        self.files[i].blocks[j].get_string(offset)
    }

    /// Replaces the block `j` of file `i` by the result of `f`; shared by the writers.
    fn take_block(&mut self, i: usize, j: usize) -> (r: (FileData, Page))
        requires
            i < old(self).files@.len(),
            j < old(self).files@[i as int].blocks@.len(),
        ensures
            final(self).files@ == old(self).files@.remove(i as int),
            final(self).block_size == old(self).block_size,
            r.0.name@ == old(self).files@[i as int].name@,
            r.0.blocks@ == old(self).files@[i as int].blocks@.remove(j as int),
            r.1@ == old(self).files@[i as int].blocks@[j as int]@,
    {
        let mut f = self.files.remove(i);
        let p = f.blocks.remove(j);
        (f, p)
    }

    /// Puts back a block taken by `take_block`.
    fn put_block(&mut self, i: usize, j: usize, f: FileData, p: Page)
        requires
            i <= old(self).files@.len(),
            j <= f.blocks@.len(),
        ensures
            final(self).files@.len() == old(self).files@.len() + 1,
            final(self).block_size == old(self).block_size,
            final(self).files@[i as int].name@ == f.name@,
            final(self).files@[i as int].blocks@ == f.blocks@.insert(j as int, p),
            forall|k: int| 0 <= k < i ==> final(self).files@[k] == old(self).files@[k],
            forall|k: int|
                i < k < final(self).files@.len() ==> final(self).files@[k] == old(self).files@[k - 1],
    {
        let mut f = f;
        f.blocks.insert(j, p);
        self.files.insert(i, f);
    }

    /// Writes `val` at `offset` of the block `blk`.
    pub fn set_int(&mut self, blk: &BlockId, offset: usize, val: i32, ok_to_log: bool)
        requires
            old(self).wf(),
            old(self).has_block(*blk),
            offset + 4 <= old(self).spec_block_size(),
        ensures
            final(self).wf(),
            final(self).spec_block_size() == old(self).spec_block_size(),
            final(self).blocks(blk.spec_file_name()) == old(self).blocks(blk.spec_file_name()).update(
                blk.spec_number() as int,
                with_int(old(self).block(*blk), offset as int, val),
            ),
            forall|name: Seq<char>|
                name != blk.spec_file_name() ==> #[trigger] final(self).blocks(name) == old(
                    self,
                ).blocks(name),
    {
        let i = self.find(blk.file_name());
        let j = blk.number() as usize;
        proof {
            lemma_find_name(self.names(), blk.spec_file_name());
        }
        assert(self.files@[i as int].blocks@[j as int]@.len() == self.block_size);
        let (f, mut p) = self.take_block(i, j);
        p.set_int(offset, val);
        self.put_block(i, j, f, p);
        proof {
            self.lemma_after_put(*old(self), i as int, j as int, blk.spec_file_name());
        }
    }

    /// Writes the string `val` at `offset` of the block `blk`.
    pub fn set_string(&mut self, blk: &BlockId, offset: usize, val: &str, ok_to_log: bool)
        requires
            old(self).wf(),
            old(self).has_block(*blk),
            offset + 4 + encode_utf8(val@).len() <= old(self).spec_block_size(),
            encode_utf8(val@).len() <= i32::MAX,
        ensures
            final(self).wf(),
            final(self).spec_block_size() == old(self).spec_block_size(),
            final(self).blocks(blk.spec_file_name()) == old(self).blocks(blk.spec_file_name()).update(
                blk.spec_number() as int,
                with_bytes(old(self).block(*blk), offset as int, encode_utf8(val@)),
            ),
            forall|name: Seq<char>|
                name != blk.spec_file_name() ==> #[trigger] final(self).blocks(name) == old(
                    self,
                ).blocks(name),
    {
        let i = self.find(blk.file_name());
        let j = blk.number() as usize;
        proof {
            lemma_find_name(self.names(), blk.spec_file_name());
        }
        assert(self.files@[i as int].blocks@[j as int]@.len() == self.block_size);
        let (f, mut p) = self.take_block(i, j);
        p.set_string(offset, val);
        self.put_block(i, j, f, p);
        proof {
            self.lemma_after_put(*old(self), i as int, j as int, blk.spec_file_name());
        }
    }

    /// After one block of file `i` was replaced by a block of the same size,
    /// only that block of that file differs.
    proof fn lemma_after_put(&self, old_tx: Transaction, i: int, j: int, name: Seq<char>)
        requires
            old_tx.wf(),
            0 <= i < old_tx.files@.len(),
            old_tx.files@[i].name@ == name,
            forall|k: int| 0 <= k < i ==> old_tx.files@[k].name@ != name,
            0 <= j < old_tx.files@[i].blocks@.len(),
            self.block_size == old_tx.block_size,
            self.files@.len() == old_tx.files@.len(),
            forall|k: int| 0 <= k < self.files@.len() && k != i ==> self.files@[k] == old_tx.files@[k],
            self.files@[i].name@ == name,
            self.files@[i].blocks@.len() == old_tx.files@[i].blocks@.len(),
            forall|k: int|
                0 <= k < self.files@[i].blocks@.len() && k != j ==> self.files@[i].blocks@[k]
                    == old_tx.files@[i].blocks@[k],
            self.files@[i].blocks@[j]@.len() == self.block_size,
        ensures
            self.wf(),
            self.blocks(name) == old_tx.blocks(name).update(j, self.files@[i].blocks@[j]@),
            forall|nm: Seq<char>| nm != name ==> #[trigger] self.blocks(nm) == old_tx.blocks(nm),
    {
        assert(self.names() =~= old_tx.names());
        lemma_find_name_at(self.names(), name, i);
        assert(self.blocks(name) =~= old_tx.blocks(name).update(j, self.files@[i].blocks@[j]@));
        assert forall|nm: Seq<char>| nm != name implies #[trigger] self.blocks(nm) == old_tx.blocks(
            nm,
        ) by {
            lemma_find_name(self.names(), nm);
            let k = find_name(self.names(), nm);
            if k < self.files@.len() {
                assert(k != i);
                assert(self.file_view(k) =~= old_tx.file_view(k));
            }
        }
        assert forall|a: int, b: int|
            #![trigger self.files@[a].blocks@[b]]
            0 <= a < self.files@.len() && 0 <= b < self.files@[a].blocks@.len()
                implies self.files@[a].blocks@[b]@.len() == self.block_size by {
            if a != i || b != j {
                assert(old_tx.files@[a].blocks@[b]@.len() == old_tx.block_size);
            }
        }
        assert forall|a: int| 0 <= a < self.files@.len() implies #[trigger] self.files@[a].blocks@.len()
            < i32::MAX by {
            assert(old_tx.files@[a].blocks@.len() < i32::MAX);
        }
    }

    /// Appends a block of zeros to the file `filename`, creating the file if
    /// needed; returns the new block.
    pub fn append(&mut self, filename: &str) -> (r: BlockId)
        requires
            old(self).wf(),
            old(self).blocks(filename@).len() + 1 < i32::MAX,
        ensures
            final(self).wf(),
            final(self).spec_block_size() == old(self).spec_block_size(),
            r.spec_file_name() == filename@,
            r.spec_number() == old(self).blocks(filename@).len(),
            final(self).blocks(filename@) == old(self).blocks(filename@).push(
                Seq::new(old(self).spec_block_size(), |k: int| 0u8),
            ),
            forall|name: Seq<char>|
                name != filename@ ==> #[trigger] final(self).blocks(name) == old(self).blocks(name),
    {
        let i = self.find(filename);
        proof {
            lemma_find_name(self.names(), filename@);
        }
        let page = Page::new(self.block_size);
        if i < self.files.len() {
            let mut f = self.files.remove(i);
            let n = f.blocks.len();
            f.blocks.push(page);
            self.files.insert(i, f);
            proof {
                let old_tx = *old(self);
                assert(self.names() =~= old_tx.names());
                lemma_find_name_at(self.names(), filename@, i as int);
                assert(self.blocks(filename@) =~= old_tx.blocks(filename@).push(
                    Seq::new(old_tx.spec_block_size(), |k: int| 0u8),
                ));
                assert forall|nm: Seq<char>| nm != filename@ implies #[trigger] self.blocks(nm)
                    == old_tx.blocks(nm) by {
                    lemma_find_name(self.names(), nm);
                    let k = find_name(self.names(), nm);
                    if k < self.files@.len() {
                        assert(self.file_view(k) =~= old_tx.file_view(k));
                    }
                }
                assert forall|a: int, b: int|
                    #![trigger self.files@[a].blocks@[b]]
                    0 <= a < self.files@.len() && 0 <= b < self.files@[a].blocks@.len()
                        implies self.files@[a].blocks@[b]@.len() == self.block_size by {
                    if a != i || b != n {
                        assert(old_tx.files@[a].blocks@[b]@.len() == old_tx.block_size);
                    }
                }
                assert forall|a: int, b: int| 0 <= a < b < self.files@.len() implies self.files@[a].name@
                    != self.files@[b].name@ by {
                    assert(self.names()[a] == old_tx.names()[a]);
                    assert(self.names()[b] == old_tx.names()[b]);
                }
                assert forall|a: int| 0 <= a < self.files@.len() implies #[trigger] self.files@[a].blocks@.len()
                    < i32::MAX by {
                    if a != i {
                        assert(old_tx.files@[a].blocks@.len() < i32::MAX);
                    }
                }
            }
            BlockId::new(filename.to_owned(), n as i32)
        } else {
            let mut blocks: Vec<Page> = Vec::new();
            blocks.push(page);
            self.files.push(FileData { name: filename.to_owned(), blocks });
            proof {
                let old_tx = *old(self);
                lemma_find_name_absent(old_tx.names(), filename@);
                assert(self.names() =~= old_tx.names().push(filename@));
                lemma_find_name_at(self.names(), filename@, i as int);
                assert(self.blocks(filename@) =~= old_tx.blocks(filename@).push(
                    Seq::new(old_tx.spec_block_size(), |k: int| 0u8),
                ));
                assert forall|nm: Seq<char>| nm != filename@ implies #[trigger] self.blocks(nm)
                    == old_tx.blocks(nm) by {
                    lemma_find_name(old_tx.names(), nm);
                    let k = find_name(old_tx.names(), nm);
                    if k < old_tx.files@.len() {
                        lemma_find_name_at(self.names(), nm, k);
                        assert(self.file_view(k) =~= old_tx.file_view(k));
                    } else {
                        assert forall|j: int| 0 <= j < self.names().len() implies self.names()[j]
                            != nm by {
                            if j < old_tx.names().len() {
                                lemma_find_name_absent(old_tx.names(), nm);
                            }
                        }
                        lemma_find_name_absent(self.names(), nm);
                    }
                }
                assert forall|a: int, b: int|
                    #![trigger self.files@[a].blocks@[b]]
                    0 <= a < self.files@.len() && 0 <= b < self.files@[a].blocks@.len()
                        implies self.files@[a].blocks@[b]@.len() == self.block_size by {
                    if a < i {
                        assert(old_tx.files@[a].blocks@[b]@.len() == old_tx.block_size);
                    }
                }
                assert forall|a: int, b: int| 0 <= a < b < self.files@.len() implies self.files@[a].name@
                    != self.files@[b].name@ by {
                    if b == i {
                        assert(old_tx.names()[a] != filename@);
                    }
                }
                assert forall|a: int| 0 <= a < self.files@.len() implies #[trigger] self.files@[a].blocks@.len()
                    < i32::MAX by {
                    if a < i {
                        assert(old_tx.files@[a].blocks@.len() < i32::MAX);
                    }
                }
            }
            BlockId::new(filename.to_owned(), 0)
        }
    }
}

} // verus!

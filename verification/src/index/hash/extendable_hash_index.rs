use vstd::prelude::*;

use crate::file::BlockId;
use crate::index::hash::bucket_page::BucketPage;
use crate::index::hash::dir_page::DirPage;
use crate::query::constant::Constant;
use crate::record::layout::Layout;
use crate::record::schema::FieldSpec;
use crate::tx::Transaction;
use crate::util::concat;

verus! {

/// An extendable hash index: a directory block that names, for each bucket
/// number, the block of the bucket file that holds the bucket's records.
pub struct ExtendableHashIndex {
    layout: Layout,
    buckettbl: String,
    searchkey: Option<Constant>,
    dir_page: DirPage,
    bucket_page: Option<BucketPage>,
}

impl ExtendableHashIndex {
    /// The directory block.
    pub closed spec fn dir_blk(&self) -> BlockId {
        self.dir_page.blk()
    }

    /// The file of the bucket blocks.
    pub closed spec fn bucket_file(&self) -> Seq<char> {
        self.buckettbl@
    }

    /// The fields of the index records.
    pub closed spec fn fs(&self) -> Seq<FieldSpec> {
        self.layout.fields()
    }

    /// Whether a search key is set.
    pub closed spec fn has_key(&self) -> bool {
        self.searchkey is Some
    }

    /// Whether a bucket is open.
    pub closed spec fn has_bucket(&self) -> bool {
        self.bucket_page is Some
    }

    /// Opens the extendable hash index `idxname`, whose directory is block 0
    /// of the file `idxname` + "dir" and whose buckets lie in the file
    /// `idxname` + "bucket". Where the directory file is empty, a first bucket
    /// block and the directory block are appended, both zeroed: every bucket
    /// number then names bucket block 0.
    pub fn new(tx: &mut Transaction, idxname: &str, layout: Layout) -> (r: Self)
        requires
            old(tx).wf(),
            old(tx).blocks(idxname@ + "dir"@).len() == 0 ==> old(tx).blocks(idxname@ + "bucket"@).len() + 1
                < i32::MAX,
        ensures
            final(tx).wf(),
            final(tx).spec_block_size() == old(tx).spec_block_size(),
            r.dir_blk().spec_file_name() == idxname@ + "dir"@,
            r.dir_blk().spec_number() == 0,
            final(tx).has_block(r.dir_blk()),
            r.bucket_file() == idxname@ + "bucket"@,
            r.fs() == layout.fields(),
            !r.has_key(),
            !r.has_bucket(),
            old(tx).blocks(idxname@ + "dir"@).len() == 0 ==> {
                let zeros = Seq::new(old(tx).spec_block_size(), |k: int| 0u8);
                &&& final(tx).blocks(idxname@ + "dir"@) == seq![zeros]
                &&& final(tx).blocks(idxname@ + "bucket"@) == old(tx).blocks(idxname@ + "bucket"@).push(zeros)
                &&& forall|nm: Seq<char>|
                    nm != idxname@ + "dir"@ && nm != idxname@ + "bucket"@ ==> #[trigger] final(tx).blocks(nm)
                        == old(tx).blocks(nm)
            },
            old(tx).blocks(idxname@ + "dir"@).len() != 0 ==> *final(tx) == *old(tx),
    {
        let dirtbl = concat(idxname, "dir");
        let buckettbl = concat(idxname, "bucket");
        proof {
            reveal_strlit("dir");
            reveal_strlit("bucket");
            assert(dirtbl@.len() != buckettbl@.len());
        }
        let dir_blk = if tx.size(dirtbl.as_str()) == 0 {
            tx.append(buckettbl.as_str());
            tx.append(dirtbl.as_str())
        } else {
            BlockId::new(dirtbl, 0)
        };
        let dir_page = DirPage::new(dir_blk);
        ExtendableHashIndex { layout, buckettbl, searchkey: None, dir_page, bucket_page: None }
    }
}

} // verus!

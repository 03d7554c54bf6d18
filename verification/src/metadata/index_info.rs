use vstd::prelude::*;

use crate::metadata::StatInfo;
use crate::index::btree::bt_index::{btree_files_ok, btree_fits, BTreeIndex};
use crate::index::btree::bt_page::{leaf_layout, names_distinct};
use crate::index::hash::extendable_hash_index::ExtendableHashIndex;
use crate::index::hash::hash_index::{HashIndex, NUM_BUCKETS};
use crate::tx::Transaction;
use crate::record::layout::{fields_fit, slot_bytes, Layout};
use crate::record::schema::{find_field, has_field_spec, FieldSpec, Schema, INTEGER, VARCHAR};
use crate::util::{div_trunc, lemma_div_trunc};

verus! {

/// The kinds of index.
#[derive(Debug, Clone, Copy, PartialEq, Eq, Structural)]
pub enum IndexType {
    BTree,
    StaticHash,
    ExtendableHash,
}

impl IndexType {
    /// The name of the kind of index.
    pub fn to_string(&self) -> (r: String)
        ensures
            r@ == match self {
                IndexType::BTree => "BTree"@,
                IndexType::StaticHash => "StaticHash"@,
                IndexType::ExtendableHash => "ExtendableHash"@,
            },
    {
        match self {
            IndexType::BTree => "BTree".to_owned(),
            IndexType::StaticHash => "StaticHash".to_owned(),
            IndexType::ExtendableHash => "ExtendableHash".to_owned(),
        }
    }
}

/// The fields of the records of an index on a field `f`: the block and slot
/// of the data record, then the indexed value, of the kind of `f`.
pub open spec fn idx_fields(f: FieldSpec) -> Seq<FieldSpec> {
    seq![
        FieldSpec { name: "block"@, ftype: INTEGER, length: 0 },
        FieldSpec { name: "id"@, ftype: INTEGER, length: 0 },
        if f.ftype == INTEGER {
            FieldSpec { name: "dataval"@, ftype: INTEGER, length: 0 }
        } else {
            FieldSpec { name: "dataval"@, ftype: VARCHAR, length: f.length }
        },
    ]
}

/// An opened index, of one of the kinds.
pub enum OpenIndex {
    BTree(BTreeIndex),
    StaticHash(HashIndex),
    ExtendableHash(ExtendableHashIndex),
}

/// Information about an index: its name, the indexed field of a table, the
/// layout of its records, the table's statistics and the kind of index.
pub struct IndexInfo {
    idxname: String,
    fldname: String,
    tbl_schema: Schema,
    idx_layout: Layout,
    si: StatInfo,
    idx_type: IndexType,
}

impl IndexInfo {
    pub closed spec fn spec_index_name(&self) -> Seq<char> {
        self.idxname@
    }

    pub closed spec fn spec_field_name(&self) -> Seq<char> {
        self.fldname@
    }

    pub closed spec fn spec_stat(&self) -> StatInfo {
        self.si
    }

    pub closed spec fn spec_type(&self) -> IndexType {
        self.idx_type
    }

    /// The fields of the index records.
    pub closed spec fn spec_idx_fields(&self) -> Seq<FieldSpec> {
        self.idx_layout.fields()
    }

    /// The layout of the index records agrees with their fields.
    pub closed spec fn wf(&self) -> bool {
        &&& self.idx_layout.wf()
        &&& exists|f: FieldSpec| self.idx_layout.fields() == #[trigger] idx_fields(f)
    }

    /// The information for the index `idxname` on the field `fldname` of a
    /// table of schema `tbl_schema`.
    pub fn new(idxname: String, fldname: String, tbl_schema: Schema, si: StatInfo, idx_type: IndexType) -> (r: Self)
        requires
            has_field_spec(tbl_schema@, fldname@),
            fields_fit(idx_fields(tbl_schema@[find_field(tbl_schema@, fldname@)])),
        ensures
            r.spec_index_name() == idxname@,
            r.spec_field_name() == fldname@,
            r.spec_stat() == si,
            r.spec_type() == idx_type,
            r.spec_idx_fields() == idx_fields(tbl_schema@[find_field(tbl_schema@, fldname@)]),
            r.wf(),
    {
        let idx_layout = Self::create_idx_layout(&tbl_schema, fldname.as_str());
        IndexInfo { idxname, fldname, tbl_schema, idx_layout, si, idx_type }
    }

    /// Opens the index that the information describes, of its kind. A B-tree
    /// index gets its leaf and directory files first where they have no
    /// block; an extendable hash index, its directory and first bucket.
    pub fn open(&self, tx: &mut Transaction) -> (r: OpenIndex)
        requires
            self.wf(),
            old(tx).wf(),
            self.spec_type() == IndexType::BTree ==> {
                &&& btree_fits(self.spec_idx_fields(), old(tx).spec_block_size() as int)
                &&& btree_files_ok(
                    old(tx),
                    self.spec_index_name() + "leaf"@,
                    self.spec_index_name() + "dir"@,
                    self.spec_idx_fields(),
                )
            },
            self.spec_type() == IndexType::ExtendableHash && old(tx).blocks(self.spec_index_name() + "dir"@).len()
                == 0 ==> old(tx).blocks(self.spec_index_name() + "bucket"@).len() + 1 < i32::MAX,
        ensures
            final(tx).spec_block_size() == old(tx).spec_block_size(),
            match r {
                OpenIndex::BTree(b) => {
                    &&& self.spec_type() == IndexType::BTree
                    &&& b.valid(final(tx))
                    &&& b.cur() is None
                    &&& b.leaf_file() == self.spec_index_name() + "leaf"@
                    &&& b.dir_file() == self.spec_index_name() + "dir"@
                    &&& b.leaf_fs() == self.spec_idx_fields()
                    &&& forall|nm: Seq<char>|
                        nm != self.spec_index_name() + "leaf"@ && nm != self.spec_index_name() + "dir"@
                            ==> #[trigger] final(tx).blocks(nm) == old(tx).blocks(nm)
                },
                OpenIndex::StaticHash(h) => {
                    &&& self.spec_type() == IndexType::StaticHash
                    &&& h.name() == self.spec_index_name()
                    &&& h.fs() == self.spec_idx_fields()
                    &&& h.key() is None
                    &&& h.scan() is None
                    &&& *final(tx) == *old(tx)
                },
                OpenIndex::ExtendableHash(e) => {
                    &&& self.spec_type() == IndexType::ExtendableHash
                    &&& e.dir_blk().spec_file_name() == self.spec_index_name() + "dir"@
                    &&& e.bucket_file() == self.spec_index_name() + "bucket"@
                    &&& e.fs() == self.spec_idx_fields()
                    &&& !e.has_key()
                    &&& final(tx).has_block(e.dir_blk())
                    &&& old(tx).blocks(self.spec_index_name() + "dir"@).len() != 0 ==> *final(tx) == *old(tx)
                },
            },
    {
        match self.idx_type {
            IndexType::BTree => {
                proof {
                    self.lemma_idx_fields();
                }
                OpenIndex::BTree(BTreeIndex::new(tx, self.idxname.as_str(), self.idx_layout.clone()))
            },
            IndexType::StaticHash => OpenIndex::StaticHash(HashIndex::new(self.idxname.as_str(), self.idx_layout.clone())),
            IndexType::ExtendableHash => OpenIndex::ExtendableHash(
                ExtendableHashIndex::new(tx, self.idxname.as_str(), self.idx_layout.clone()),
            ),
        }
    }

    /// The fields of index records are those of a B-tree leaf, with
    /// distinct names.
    proof fn lemma_idx_fields(&self)
        requires
            self.wf(),
        ensures
            leaf_layout(self.spec_idx_fields()),
            names_distinct(self.spec_idx_fields()),
    {
        reveal_strlit("block");
        reveal_strlit("id");
        reveal_strlit("dataval");
        let f = choose|f: FieldSpec| self.idx_layout.fields() == #[trigger] idx_fields(f);
        let fs = idx_fields(f);
        assert(fs[0].name.len() == 5 && fs[1].name.len() == 2 && fs[2].name.len() == 7);
    }

    /// The layout of the records of an index on the field `fldname`.
    fn create_idx_layout(tbl_schema: &Schema, fldname: &str) -> (r: Layout)
        requires
            has_field_spec(tbl_schema@, fldname@),
            fields_fit(idx_fields(tbl_schema@[find_field(tbl_schema@, fldname@)])),
        ensures
            r.wf(),
            r.fields() == idx_fields(tbl_schema@[find_field(tbl_schema@, fldname@)]),
    {
        let mut sch = Schema::new();
        sch.add_int_field("block");
        sch.add_int_field("id");
        if tbl_schema.ftype(fldname) == INTEGER {
            sch.add_int_field("dataval");
        } else {
            let fldlen = tbl_schema.length(fldname);
            sch.add_string_field("dataval", fldlen);
        }
        assert(sch@ =~= idx_fields(tbl_schema@[find_field(tbl_schema@, fldname@)]));
        Layout::new(sch)
    }

    /// The number of index records a block of `block_size` bytes holds, and
    /// the number of blocks the index records of the table take.
    pub fn index_size(&self, block_size: i32) -> (r: (i32, i32))
        requires
            self.wf(),
            slot_bytes(self.spec_idx_fields()) <= block_size,
        ensures
            r.0 == div_trunc(block_size as int, slot_bytes(self.spec_idx_fields())),
            r.1 == div_trunc(self.spec_stat().spec_recs() as int, r.0 as int),
            r.0 >= 1,
    {
        let slotsize = self.idx_layout.slot_size();
        proof {
            self.idx_layout.lemma_wf();
            crate::record::layout::lemma_sum_bytes_nonneg(self.spec_idx_fields());
            assert(block_size / slotsize >= 1) by (nonlinear_arith)
                requires
                    4 <= slotsize <= block_size,
            ;
            lemma_div_trunc(block_size as int, slotsize as int);
        }
        let rpb = block_size / slotsize;
        proof {
            lemma_div_trunc(self.spec_stat().spec_recs() as int, rpb as int);
        }
        let numblocks = self.si.records_output() / rpb;
        (rpb, numblocks)
    }

    /// The estimated number of block accesses to find the records of one
    /// search key, with blocks of `block_size` bytes: `btree_cost` for a
    /// B-tree, the blocks of one bucket for a static hash index, and two for
    /// an extendable hash index.
    pub fn blocks_accessed(&self, block_size: i32, btree_cost: i32) -> (r: i32)
        requires
            self.wf(),
            slot_bytes(self.spec_idx_fields()) <= block_size,
        ensures
            r == match self.spec_type() {
                IndexType::BTree => btree_cost as int,
                IndexType::StaticHash => div_trunc(
                    div_trunc(
                        self.spec_stat().spec_recs() as int,
                        div_trunc(block_size as int, slot_bytes(self.spec_idx_fields())),
                    ),
                    NUM_BUCKETS as int,
                ),
                IndexType::ExtendableHash => 2,
            },
    {
        let (rpb, numblocks) = self.index_size(block_size);
        match self.idx_type {
            IndexType::BTree => btree_cost,
            IndexType::StaticHash => HashIndex::search_cost(numblocks, rpb),
            IndexType::ExtendableHash => 2,
        }
    }

    /// The estimated number of records that have a given value of the field.
    pub fn records_output(&self) -> (r: i32)
        requires
            self.spec_stat().spec_distinct() != 0,
        ensures
            r == div_trunc(self.spec_stat().spec_recs() as int, self.spec_stat().spec_distinct()),
    {
        proof {
            lemma_div_trunc(self.spec_stat().spec_recs() as int, self.spec_stat().spec_distinct());
        }
        self.si.records_output() / self.si.distinct_values(self.fldname.as_str())
    }

    /// The estimated number of distinct values of the field `fname`: one for
    /// the indexed field.
    pub fn distinct_values(&self, fname: &str) -> (r: i32)
        ensures
            r == if self.spec_field_name() == fname@ {
                1
            } else {
                self.spec_stat().spec_distinct()
            },
    {
        if self.fldname == fname.to_owned() {
            1
        } else {
            self.si.distinct_values(fname)
        }
    }

    /// The kind of the index.
    pub fn index_type(&self) -> (r: IndexType)
        ensures
            r == self.spec_type(),
    {
        self.idx_type
    }

    /// The statistics of the indexed table.
    pub fn stat_info(&self) -> (r: StatInfo)
        ensures
            r == self.spec_stat(),
    {
        self.si
    }

    /// The layout of the index records.
    pub fn index_layout(&self) -> (r: &Layout)
        ensures
            r.fields() == self.spec_idx_fields(),
    {
        &self.idx_layout
    }
}

} // verus!

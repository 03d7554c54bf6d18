use vstd::prelude::*;

use crate::record::schema::{find_field, has_field_spec, lemma_find_field, FieldSpec, Schema, INTEGER};

verus! {

/// The bytes a field takes in a record slot: four for an integer, and four plus
/// four per character for a string.
pub open spec fn field_bytes(f: FieldSpec) -> int {
    if f.ftype == INTEGER {
        4
    } else {
        4 + 4 * f.length
    }
}

/// The bytes all the fields `fs` take together.
pub open spec fn sum_bytes(fs: Seq<FieldSpec>) -> int
    decreases fs.len(),
{
    if fs.len() == 0 {
        0
    } else {
        sum_bytes(fs.drop_last()) + field_bytes(fs.last())
    }
}

/// Whether a schema can be laid out: no string field has a negative length,
/// and a slot fits in an `i32`.
pub open spec fn fields_fit(fs: Seq<FieldSpec>) -> bool {
    &&& forall|i: int| 0 <= i < fs.len() ==> #[trigger] fs[i].length >= 0
    &&& 4 + sum_bytes(fs) <= i32::MAX
}

/// The offset of field `i` in a slot: a four-byte in-use flag comes first,
/// then the fields in order.
pub open spec fn field_offset(fs: Seq<FieldSpec>, i: int) -> int {
    4 + sum_bytes(fs.take(i))
}

/// The size of a record slot.
pub open spec fn slot_bytes(fs: Seq<FieldSpec>) -> int {
    4 + sum_bytes(fs)
}

/// Field sizes are never negative when lengths are not.
pub proof fn lemma_sum_bytes_nonneg(fs: Seq<FieldSpec>)
    requires
        forall|i: int| 0 <= i < fs.len() ==> #[trigger] fs[i].length >= 0,
    ensures
        sum_bytes(fs) >= 0,
    decreases fs.len(),
{
    if fs.len() > 0 {
        assert(fs.drop_last().len() < fs.len());
        assert forall|i: int| 0 <= i < fs.drop_last().len() implies #[trigger] fs.drop_last()[i].length
            >= 0 by {
            assert(fs.drop_last()[i] == fs[i]);
        }
        lemma_sum_bytes_nonneg(fs.drop_last());
        assert(fs.last() == fs[fs.len() - 1]);
    }
}

/// Sizes of prefixes grow with the prefix.
pub proof fn lemma_sum_bytes_prefix(fs: Seq<FieldSpec>, i: int, j: int)
    requires
        forall|k: int| 0 <= k < fs.len() ==> #[trigger] fs[k].length >= 0,
        0 <= i <= j <= fs.len(),
    ensures
        sum_bytes(fs.take(i)) <= sum_bytes(fs.take(j)),
        i < j ==> sum_bytes(fs.take(i)) + field_bytes(fs[i]) <= sum_bytes(fs.take(j)),
    decreases j - i,
{
    if i < j {
        let t = fs.take(j);
        assert(t.drop_last() =~= fs.take(j - 1));
        assert(t.last() == fs[j - 1]);
        assert(fs[j - 1].length >= 0);
        lemma_sum_bytes_prefix(fs, i, j - 1);
        if i == j - 1 {
        }
    }
}

/// Within a slot the fields lie one after another without overlapping.
pub proof fn lemma_field_bounds(fs: Seq<FieldSpec>, i: int, j: int)
    requires
        fields_fit(fs),
        0 <= i < fs.len(),
        0 <= j < fs.len(),
    ensures
        field_offset(fs, i) >= 4,
        field_offset(fs, i) + field_bytes(fs[i]) <= slot_bytes(fs),
        i < j ==> field_offset(fs, i) + field_bytes(fs[i]) <= field_offset(fs, j),
        field_bytes(fs[i]) >= 4,
{
    assert(fs.take(fs.len() as int) =~= fs);
    lemma_sum_bytes_prefix(fs, 0, i);
    assert(fs.take(0) =~= Seq::<FieldSpec>::empty());
    lemma_sum_bytes_prefix(fs, i, fs.len() as int);
    if i < j {
        lemma_sum_bytes_prefix(fs, i, j);
    }
    assert(fs[i].length >= 0);
}

/// How the fields of a schema are placed in a record slot.
pub struct Layout {
    schema: Schema,
    offsets: Vec<i32>,
    slotsize: i32,
}

impl Layout {
    pub closed spec fn fields(&self) -> Seq<FieldSpec> {
        self.schema@
    }

    /// The layout agrees with its schema: offsets as `field_offset` says, and the slot size.
    pub closed spec fn wf(&self) -> bool {
        &&& fields_fit(self.schema@)
        &&& self.offsets@.len() == self.schema@.len()
        &&& forall|i: int|
            0 <= i < self.schema@.len() ==> #[trigger] self.offsets@[i] == field_offset(
                self.schema@,
                i,
            )
        &&& self.slotsize == slot_bytes(self.schema@)
    }

    /// A well-formed layout places fields that fit.
    pub proof fn lemma_wf(&self)
        requires
            self.wf(),
        ensures
            fields_fit(self.fields()),
    {
    }

    /// Lays out the fields of `schema` one after another, after a four-byte flag.
    pub fn new(schema: Schema) -> (r: Self)
        requires
            fields_fit(schema@),
        ensures
            r.wf(),
            r.fields() == schema@,
    {
        let mut offsets: Vec<i32> = Vec::new();
        let mut pos: i32 = 4;
        let mut i: usize = 0;
        proof {
            lemma_sum_bytes_nonneg(schema@);
            assert(schema@.take(0) =~= Seq::<FieldSpec>::empty());
        }
        while i < schema.fields_len()
            invariant
                fields_fit(schema@),
                i <= schema@.len(),
                offsets@.len() == i,
                pos == field_offset(schema@, i as int),
                forall|k: int| 0 <= k < i ==> #[trigger] offsets@[k] == field_offset(schema@, k),
            decreases schema@.len() - i,
        {
            offsets.push(pos);
            let (t, l) = schema.field_at(i);
            proof {
                lemma_sum_bytes_prefix(schema@, i as int, i as int + 1);
                lemma_sum_bytes_prefix(schema@, i as int + 1, schema@.len() as int);
                assert(schema@.take(schema@.len() as int) =~= schema@);
                let tk = schema@.take(i as int + 1);
                assert(tk.drop_last() =~= schema@.take(i as int));
                assert(tk.last() == schema@[i as int]);
                lemma_sum_bytes_nonneg(schema@);
                assert(schema@[i as int].length >= 0);
                assert(sum_bytes(tk) == sum_bytes(schema@.take(i as int)) + field_bytes(schema@[i as int]));
            }
            if t == INTEGER {
                pos = pos + 4;
            } else {
                assert(field_offset(schema@, i as int + 1) == pos + 4 + 4 * l);
                assert(field_offset(schema@, i as int + 1) <= slot_bytes(schema@));
                let wide: i64 = (pos as i64) + 4 + 4 * (l as i64);
                pos = wide as i32;
            }
            i = i + 1;
        }
        proof {
            assert(schema@.take(i as int) =~= schema@);
        }
        Layout { schema, offsets, slotsize: pos }
    }

    /// The schema whose fields this layout places.
    pub fn schema(&self) -> (r: &Schema)
        ensures
            r@ == self.fields(),
    {
        &self.schema
    }

    /// The offset of the field `fldname` in a slot.
    pub fn offset(&self, fldname: &str) -> (r: i32)
        requires
            self.wf(),
            has_field_spec(self.fields(), fldname@),
        ensures
            r == field_offset(self.fields(), find_field(self.fields(), fldname@)),
    {
        proof {
            lemma_find_field(self.fields(), fldname@);
        }
        let i = self.schema.index_of(fldname);
        self.offsets[i]
    }

    /// The size of a record slot.
    pub fn slot_size(&self) -> (r: i32)
        ensures
            r == self.spec_slot_size(),
            self.wf() ==> r == slot_bytes(self.fields()),
    {
        self.slotsize
    }

    /// The slot size the layout holds.
    pub closed spec fn spec_slot_size(&self) -> i32 {
        self.slotsize
    }

    /// The field offsets the layout holds, in schema order.
    pub closed spec fn spec_offsets(&self) -> Seq<i32> {
        self.offsets@
    }

    /// A layout whose offsets and slot size are those `Layout::new` computes
    /// for its fields is well formed.
    pub proof fn lemma_wf_from_parts(&self)
        requires
            fields_fit(self.fields()),
            self.spec_offsets() == Seq::new(self.fields().len(), |i: int| field_offset(self.fields(), i) as i32),
            self.spec_slot_size() == slot_bytes(self.fields()),
        ensures
            self.wf(),
    {
        assert forall|i: int| 0 <= i < self.schema@.len() implies #[trigger] self.offsets@[i] == field_offset(
            self.schema@,
            i,
        ) by {
            lemma_field_bounds(self.schema@, i, i);
            lemma_sum_bytes_nonneg(self.schema@);
        }
    }

    /// The layout of the fields of `schema` at the offsets `offsets`, in
    /// schema order, in slots of `slotsize` bytes, as a catalog records them.
    pub fn from_metadata(schema: Schema, offsets: Vec<i32>, slotsize: i32) -> (r: Self)
        ensures
            r.fields() == schema@,
            r.spec_offsets() == offsets@,
            r.spec_slot_size() == slotsize,
    {
        Layout { schema, offsets, slotsize }
    }
}

impl Clone for Layout {
    fn clone(&self) -> (r: Self)
        ensures
            r.fields() == self.fields(),
            self.wf() ==> r.wf(),
    {
        Layout { schema: self.schema.clone(), offsets: self.offsets.clone(), slotsize: self.slotsize }
    }
}

} // verus!

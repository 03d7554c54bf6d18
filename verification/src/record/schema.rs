use vstd::prelude::*;

verus! {

/// The type code of integer fields.
pub const INTEGER: i32 = 4;

/// The type code of string fields.
pub const VARCHAR: i32 = 12;

/// The name, type and declared length of a field.
pub struct FieldSpec {
    pub name: Seq<char>,
    pub ftype: i32,
    pub length: i32,
}

/// The index of the first field named `name`, or the number of fields where none is.
pub open spec fn find_field(fs: Seq<FieldSpec>, name: Seq<char>) -> int
    decreases fs.len(),
{
    if fs.len() == 0 {
        0
    } else if fs[0].name == name {
        0
    } else {
        1 + find_field(fs.drop_first(), name)
    }
}

/// Whether a field named `name` is among `fs`.
pub open spec fn has_field_spec(fs: Seq<FieldSpec>, name: Seq<char>) -> bool {
    exists|i: int| 0 <= i < fs.len() && #[trigger] fs[i].name == name
}

/// `find_field` is the first index that carries the name.
pub proof fn lemma_find_field(fs: Seq<FieldSpec>, name: Seq<char>)
    ensures
        0 <= find_field(fs, name) <= fs.len(),
        find_field(fs, name) < fs.len() <==> has_field_spec(fs, name),
        find_field(fs, name) < fs.len() ==> fs[find_field(fs, name)].name == name,
        forall|j: int| 0 <= j < find_field(fs, name) ==> fs[j].name != name,
    decreases fs.len(),
{
    if fs.len() > 0 && fs[0].name != name {
        lemma_find_field(fs.drop_first(), name);
        let k = find_field(fs.drop_first(), name);
        assert forall|j: int| 0 <= j < find_field(fs, name) implies fs[j].name != name by {
            if j > 0 {
                assert(fs[j] == fs.drop_first()[j - 1]);
            }
        }
        if has_field_spec(fs, name) {
            let i = choose|i: int| 0 <= i < fs.len() && #[trigger] fs[i].name == name;
            assert(fs.drop_first()[i - 1].name == name);
        }
        if k < fs.drop_first().len() {
            assert(fs[k + 1] == fs.drop_first()[k]);
        }
    } else if fs.len() > 0 {
        assert(fs[0].name == name);
    }
}

struct FieldInfo {
    name: String,
    ftype: i32,
    length: i32,
}

/// The record schema of a table: the name, type and length of each field, in order.
pub struct Schema {
    fields: Vec<FieldInfo>,
}

impl View for Schema {
    type V = Seq<FieldSpec>;

    closed spec fn view(&self) -> Seq<FieldSpec> {
        Seq::new(
            self.fields@.len(),
            |i: int|
                FieldSpec {
                    name: self.fields@[i].name@,
                    ftype: self.fields@[i].ftype,
                    length: self.fields@[i].length,
                },
        )
    }
}

impl Schema {
    pub fn new() -> (r: Self)
        ensures
            r@ == Seq::<FieldSpec>::empty(),
    {
        let r = Schema { fields: Vec::new() };
        assert(r@ =~= Seq::<FieldSpec>::empty());
        r
    }

    /// Appends a field with the given name, type and length.
    pub fn add_field(&mut self, fldname: &str, ftype: i32, length: i32)
        ensures
            final(self)@ == old(self)@.push(FieldSpec { name: fldname@, ftype, length }),
    {
        self.fields.push(FieldInfo { name: fldname.to_owned(), ftype, length });
        assert(self@ =~= old(self)@.push(FieldSpec { name: fldname@, ftype, length }));
    }

    /// Appends an integer field.
    pub fn add_int_field(&mut self, fldname: &str)
        ensures
            final(self)@ == old(self)@.push(FieldSpec { name: fldname@, ftype: INTEGER, length: 0 }),
    {
        self.add_field(fldname, INTEGER, 0);
    }

    /// Appends a string field of at most `length` characters.
    pub fn add_string_field(&mut self, fldname: &str, length: i32)
        ensures
            final(self)@ == old(self)@.push(FieldSpec { name: fldname@, ftype: VARCHAR, length }),
    {
        self.add_field(fldname, VARCHAR, length);
    }

    /// Appends the field `fldname` of the schema `sch`, with its type and length.
    pub fn add(&mut self, fldname: &str, sch: &Schema)
        requires
            has_field_spec(sch@, fldname@),
        ensures
            final(self)@ == old(self)@.push(
                FieldSpec { name: fldname@, ..sch@[find_field(sch@, fldname@)] },
            ),
    {
        let t = sch.ftype(fldname);
        let l = sch.length(fldname);
        self.add_field(fldname, t, l);
    }

    /// Appends every field of `sch`, in order.
    pub fn add_all(&mut self, sch: &Schema)
        ensures
            final(self)@ == old(self)@ + sch@,
    {
        let mut i: usize = 0;
        while i < sch.fields.len()
            invariant
                i <= sch@.len(),
                self@ == old(self)@ + sch@.take(i as int),
            decreases sch@.len() - i,
        {
            let f = &sch.fields[i];
            self.add_field(f.name.as_str(), f.ftype, f.length);
            assert(sch@.take(i as int + 1) =~= sch@.take(i as int).push(sch@[i as int]));
            assert(self@ =~= old(self)@ + sch@.take(i as int + 1));
            i = i + 1;
        }
        assert(sch@.take(i as int) =~= sch@);
    }

    /// The index of the first field named `fldname`, or the number of fields.
    pub(crate) fn index_of(&self, fldname: &str) -> (r: usize)
        ensures
            r == find_field(self@, fldname@),
    {
        proof {
            lemma_find_field(self@, fldname@);
        }
        let target = fldname.to_owned();
        let mut i: usize = 0;
        while i < self.fields.len()
            invariant
                target@ == fldname@,
                i <= self@.len(),
                forall|j: int| 0 <= j < i ==> self@[j].name != fldname@,
                0 <= find_field(self@, fldname@) <= self@.len(),
                find_field(self@, fldname@) < self@.len() ==> self@[find_field(self@, fldname@)].name
                    == fldname@,
                forall|j: int| 0 <= j < find_field(self@, fldname@) ==> self@[j].name != fldname@,
            decreases self@.len() - i,
        {
            if self.fields[i].name == target {
                assert(self@[i as int].name == fldname@);
                return i;
            }
            i = i + 1;
        }
        i
    }

    /// The number of fields.
    pub fn fields_len(&self) -> (r: usize)
        ensures
            r == self@.len(),
    {
        self.fields.len()
    }

    /// The type and length of the field at position `i`.
    pub fn field_at(&self, i: usize) -> (r: (i32, i32))
        requires
            i < self@.len(),
        ensures
            r.0 == self@[i as int].ftype,
            r.1 == self@[i as int].length,
    {
        (self.fields[i].ftype, self.fields[i].length)
    }

    /// The names of the fields, in order.
    pub fn fields(&self) -> (r: Vec<String>)
        ensures
            r@.len() == self@.len(),
            forall|i: int| 0 <= i < r@.len() ==> #[trigger] r@[i]@ == self@[i].name,
    {
        let mut r: Vec<String> = Vec::new();
        let mut i: usize = 0;
        while i < self.fields.len()
            invariant
                i <= self@.len(),
                r@.len() == i,
                forall|j: int| 0 <= j < i ==> #[trigger] r@[j]@ == self@[j].name,
            decreases self@.len() - i,
        {
            r.push(self.fields[i].name.clone());
            i = i + 1;
        }
        r
    }

    /// Whether the schema has a field named `fldname`.
    pub fn has_field(&self, fldname: &str) -> (r: bool)
        ensures
            r == has_field_spec(self@, fldname@),
    {
        proof {
            lemma_find_field(self@, fldname@);
        }
        self.index_of(fldname) < self.fields.len()
    }

    /// The type of the field `fldname`.
    pub fn ftype(&self, fldname: &str) -> (r: i32)
        requires
            has_field_spec(self@, fldname@),
        ensures
            r == self@[find_field(self@, fldname@)].ftype,
    {
        proof {
            lemma_find_field(self@, fldname@);
        }
        let i = self.index_of(fldname);
        self.fields[i].ftype
    }

    /// The declared length of the field `fldname`.
    pub fn length(&self, fldname: &str) -> (r: i32)
        requires
            has_field_spec(self@, fldname@),
        ensures
            r == self@[find_field(self@, fldname@)].length,
    {
        proof {
            lemma_find_field(self@, fldname@);
        }
        let i = self.index_of(fldname);
        self.fields[i].length
    }
}

impl Clone for Schema {
    fn clone(&self) -> (r: Self)
        ensures
            r@ == self@,
    {
        let mut r = Schema::new();
        r.add_all(self);
        assert(r@ =~= self@);
        r
    }
}

} // verus!

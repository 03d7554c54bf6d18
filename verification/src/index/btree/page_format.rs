use vstd::prelude::*;

use crate::file::page::{
    bytes_at, int_at, lemma_bytes_write_read, lemma_int_write_read, string_at, with_bytes, with_int,
};
use crate::query::constant::ConstVal;
use crate::record::layout::{field_bytes, field_offset, fields_fit, lemma_field_bounds, slot_bytes};
use crate::record::schema::{FieldSpec, INTEGER};
use vstd::utf8::{encode_utf8, valid_utf8};

verus! {

broadcast use {vstd::utf8::encode_utf8_decode_utf8, vstd::utf8::encode_utf8_valid_utf8};

// A B-tree page holds a four-byte flag at offset 0, the number of records at
// offset 4, and then the records in slots of `slot_bytes` bytes each. A hash
// bucket page has the same shape: its local depth at offset 0, its number of
// records at offset 4, then slots that each start with an in-use flag.

/// The flag of a B-tree page: its level for a directory page, the block of its
/// overflow chain (or -1) for a leaf page.
pub open spec fn flag_of(b: Seq<u8>) -> i32 {
    int_at(b, 0)
}

/// The number of records of a B-tree page.
pub open spec fn num_of(b: Seq<u8>) -> i32 {
    int_at(b, 4)
}

/// Where the slot `slot` starts.
pub open spec fn slot_pos(fs: Seq<FieldSpec>, slot: int) -> int {
    8 + slot * slot_bytes(fs)
}

/// Where field `i` of slot `slot` starts.
pub open spec fn field_pos(fs: Seq<FieldSpec>, slot: int, i: int) -> int {
    slot_pos(fs, slot) + field_offset(fs, i)
}

/// Whether field `i` of slot `slot` lies in the page and, for a string field,
/// holds a UTF-8 string that fits the field.
pub open spec fn field_ok(b: Seq<u8>, fs: Seq<FieldSpec>, slot: int, i: int) -> bool {
    let p = field_pos(fs, slot, i);
    &&& 0 <= p
    &&& p + field_bytes(fs[i]) <= b.len()
    &&& fs[i].ftype != INTEGER ==> {
        &&& 0 <= int_at(b, p) <= 4 * fs[i].length
        &&& valid_utf8(bytes_at(b, p))
    }
}

/// The value of field `i` of slot `slot`.
pub open spec fn field_val(b: Seq<u8>, fs: Seq<FieldSpec>, slot: int, i: int) -> ConstVal {
    let p = field_pos(fs, slot, i);
    if fs[i].ftype == INTEGER {
        ConstVal::Int(int_at(b, p))
    } else {
        ConstVal::Str(string_at(b, p))
    }
}

/// The values of all fields of slot `slot`, in schema order.
pub open spec fn rec_val(b: Seq<u8>, fs: Seq<FieldSpec>, slot: int) -> Seq<ConstVal> {
    Seq::new(fs.len(), |i: int| field_val(b, fs, slot, i))
}

/// The records of the page, in slot order.
pub open spec fn recs_of(b: Seq<u8>, fs: Seq<FieldSpec>) -> Seq<Seq<ConstVal>> {
    Seq::new(num_of(b) as nat, |s: int| rec_val(b, fs, s))
}

/// Whether every field of slot `slot` is well formed.
pub open spec fn slot_ok(b: Seq<u8>, fs: Seq<FieldSpec>, slot: int) -> bool {
    forall|i: int| 0 <= i < fs.len() ==> #[trigger] field_ok(b, fs, slot, i)
}

/// A well-formed B-tree page: its records lie in the page and hold well-formed fields.
pub open spec fn page_wf(b: Seq<u8>, fs: Seq<FieldSpec>) -> bool {
    &&& fields_fit(fs)
    &&& 8 <= b.len()
    &&& 0 <= num_of(b)
    &&& slot_pos(fs, num_of(b) as int) <= b.len()
    &&& slots_ok(b, fs)
}

/// Every slot that lies in the page holds well-formed fields.
pub open spec fn slots_ok(b: Seq<u8>, fs: Seq<FieldSpec>) -> bool {
    forall|s: int| 0 <= s && slot_pos(fs, s + 1) <= b.len() ==> #[trigger] slot_ok(b, fs, s)
}

/// Whether a value can be stored in a field: integers in integer fields, and
/// strings whose UTF-8 bytes fit in string fields.
pub open spec fn val_fits(v: ConstVal, f: FieldSpec) -> bool {
    match v {
        ConstVal::Int(_) => f.ftype == INTEGER,
        ConstVal::Str(s) => f.ftype != INTEGER && encode_utf8(s).len() <= 4 * f.length,
    }
}

/// Whether two byte sequences agree everywhere but in `[lo, hi)`.
pub open spec fn agree_outside(b1: Seq<u8>, b2: Seq<u8>, lo: int, hi: int) -> bool {
    &&& b1.len() == b2.len()
    &&& forall|k: int| 0 <= k < b1.len() && (k < lo || hi <= k) ==> #[trigger] b1[k] == b2[k]
}

/// Later slots start after earlier slots end.
pub proof fn lemma_slot_order(fs: Seq<FieldSpec>, s1: int, s2: int)
    requires
        fields_fit(fs),
        0 <= s1 < s2,
    ensures
        slot_pos(fs, s1 + 1) <= slot_pos(fs, s2),
        slot_pos(fs, s1) + slot_bytes(fs) == slot_pos(fs, s1 + 1),
{
    let ss = slot_bytes(fs);
    crate::record::layout::lemma_sum_bytes_nonneg(fs);
    assert((s1 + 1) * ss <= s2 * ss) by (nonlinear_arith)
        requires
            s1 + 1 <= s2,
            ss >= 0,
    ;
    assert((s1 + 1) * ss == s1 * ss + ss) by (nonlinear_arith);
}

/// Slot positions grow with the slot number and are at least 8.
pub proof fn lemma_slot_pos_mono(fs: Seq<FieldSpec>, s1: int, s2: int)
    requires
        fields_fit(fs),
        0 <= s1 <= s2,
    ensures
        8 <= slot_pos(fs, s1) <= slot_pos(fs, s2),
{
    let ss = slot_bytes(fs);
    crate::record::layout::lemma_sum_bytes_nonneg(fs);
    assert(s1 * ss <= s2 * ss) by (nonlinear_arith)
        requires
            s1 <= s2,
            ss >= 0,
    ;
    assert(0 <= s1 * ss) by (nonlinear_arith)
        requires
            s1 >= 0,
            ss >= 0,
    ;
}

/// A slot number is below its slot's position.
pub proof fn lemma_slot_pos_ge(fs: Seq<FieldSpec>, s: int)
    requires
        fields_fit(fs),
        0 <= s,
    ensures
        8 + 4 * s <= slot_pos(fs, s),
{
    let ss = slot_bytes(fs);
    crate::record::layout::lemma_sum_bytes_nonneg(fs);
    assert(4 * s <= s * ss) by (nonlinear_arith)
        requires
            s >= 0,
            ss >= 4,
    ;
}

/// A field lies inside its slot.
pub proof fn lemma_field_in_slot(fs: Seq<FieldSpec>, s: int, i: int)
    requires
        fields_fit(fs),
        0 <= s,
        0 <= i < fs.len(),
    ensures
        slot_pos(fs, s) + 4 <= field_pos(fs, s, i),
        field_pos(fs, s, i) + field_bytes(fs[i]) <= slot_pos(fs, s + 1),
        8 <= slot_pos(fs, s),
{
    lemma_field_bounds(fs, i, i);
    lemma_slot_order(fs, s, s + 1);
    lemma_slot_pos_mono(fs, s, s);
}

/// Two different fields, of one slot or of two, do not overlap.
pub proof fn lemma_fields_disjoint(fs: Seq<FieldSpec>, s1: int, i1: int, s2: int, i2: int)
    requires
        fields_fit(fs),
        0 <= s1,
        0 <= s2,
        0 <= i1 < fs.len(),
        0 <= i2 < fs.len(),
        s1 != s2 || i1 != i2,
    ensures
        field_pos(fs, s1, i1) + field_bytes(fs[i1]) <= field_pos(fs, s2, i2) || field_pos(fs, s2, i2)
            + field_bytes(fs[i2]) <= field_pos(fs, s1, i1),
{
    lemma_field_in_slot(fs, s1, i1);
    lemma_field_in_slot(fs, s2, i2);
    if s1 < s2 {
        lemma_slot_order(fs, s1, s2);
    } else if s2 < s1 {
        lemma_slot_order(fs, s2, s1);
    } else if i1 < i2 {
        lemma_field_bounds(fs, i1, i2);
    } else {
        lemma_field_bounds(fs, i2, i1);
    }
}

/// A field keeps its value and form where its bytes are unchanged.
pub proof fn lemma_field_frame(b1: Seq<u8>, b2: Seq<u8>, fs: Seq<FieldSpec>, s: int, i: int)
    requires
        fields_fit(fs),
        0 <= s,
        0 <= i < fs.len(),
        field_ok(b1, fs, s, i),
        b1.len() == b2.len(),
        forall|k: int|
            field_pos(fs, s, i) <= k < field_pos(fs, s, i) + field_bytes(fs[i]) ==> #[trigger] b1[k]
                == b2[k],
    ensures
        field_ok(b2, fs, s, i),
        field_val(b2, fs, s, i) == field_val(b1, fs, s, i),
{
    let p = field_pos(fs, s, i);
    lemma_field_bounds(fs, i, i);
    assert(b1[p] == b2[p]);
    assert(b1[p + 1] == b2[p + 1]);
    assert(b1[p + 2] == b2[p + 2]);
    assert(b1[p + 3] == b2[p + 3]);
    assert(int_at(b1, p) == int_at(b2, p));
    if fs[i].ftype != INTEGER {
        assert(bytes_at(b1, p) =~= bytes_at(b2, p));
    }
}

/// A field keeps its value and form across a change outside its bytes.
pub proof fn lemma_field_untouched(
    b1: Seq<u8>,
    b2: Seq<u8>,
    fs: Seq<FieldSpec>,
    s: int,
    i: int,
    lo: int,
    hi: int,
)
    requires
        fields_fit(fs),
        0 <= s,
        0 <= i < fs.len(),
        field_ok(b1, fs, s, i),
        agree_outside(b1, b2, lo, hi),
        hi <= field_pos(fs, s, i) || field_pos(fs, s, i) + field_bytes(fs[i]) <= lo,
    ensures
        field_ok(b2, fs, s, i),
        field_val(b2, fs, s, i) == field_val(b1, fs, s, i),
{
    lemma_field_frame(b1, b2, fs, s, i);
}

/// Writing an integer changes only its four bytes.
pub proof fn lemma_with_int_agree(b: Seq<u8>, off: int, v: i32)
    requires
        0 <= off,
        off + 4 <= b.len(),
    ensures
        agree_outside(b, with_int(b, off, v), off, off + 4),
{
}

/// Writing a byte string changes only its length prefix and bytes.
pub proof fn lemma_with_bytes_agree(b: Seq<u8>, off: int, val: Seq<u8>)
    requires
        0 <= off,
        off + 4 + val.len() <= b.len(),
    ensures
        agree_outside(b, with_bytes(b, off, val), off, off + 4 + val.len()),
{
    let nb = with_bytes(b, off, val);
    assert(nb.len() == b.len());
}

/// Writing an integer into an integer field stores it there.
pub proof fn lemma_int_field_write(b: Seq<u8>, fs: Seq<FieldSpec>, s: int, i: int, v: i32)
    requires
        fields_fit(fs),
        0 <= s,
        0 <= i < fs.len(),
        fs[i].ftype == INTEGER,
        0 <= field_pos(fs, s, i),
        field_pos(fs, s, i) + 4 <= b.len(),
    ensures
        field_ok(with_int(b, field_pos(fs, s, i), v), fs, s, i),
        field_val(with_int(b, field_pos(fs, s, i), v), fs, s, i) == ConstVal::Int(v),
{
    lemma_int_write_read(b, field_pos(fs, s, i), v);
}

/// Writing a string that fits into a string field stores it there.
pub proof fn lemma_string_field_write(b: Seq<u8>, fs: Seq<FieldSpec>, s: int, i: int, v: Seq<char>)
    requires
        fields_fit(fs),
        0 <= s,
        0 <= i < fs.len(),
        fs[i].ftype != INTEGER,
        encode_utf8(v).len() <= 4 * fs[i].length,
        0 <= field_pos(fs, s, i),
        field_pos(fs, s, i) + field_bytes(fs[i]) <= b.len(),
    ensures
        field_ok(with_bytes(b, field_pos(fs, s, i), encode_utf8(v)), fs, s, i),
        field_val(with_bytes(b, field_pos(fs, s, i), encode_utf8(v)), fs, s, i) == ConstVal::Str(v),
{
    lemma_field_bounds(fs, i, i);
    lemma_bytes_write_read(b, field_pos(fs, s, i), encode_utf8(v));
}

/// A slot keeps its fields across a change confined to another slot.
pub proof fn lemma_slot_untouched(b1: Seq<u8>, b2: Seq<u8>, fs: Seq<FieldSpec>, s: int, t: int)
    requires
        fields_fit(fs),
        0 <= s,
        0 <= t,
        s != t,
        slot_ok(b1, fs, s),
        agree_outside(b1, b2, slot_pos(fs, t), slot_pos(fs, t + 1)),
    ensures
        slot_ok(b2, fs, s),
        rec_val(b2, fs, s) == rec_val(b1, fs, s),
{
    if s < t {
        lemma_slot_order(fs, s, t);
    } else {
        lemma_slot_order(fs, t, s);
    }
    assert forall|i: int| 0 <= i < fs.len() implies #[trigger] field_ok(b2, fs, s, i) && field_val(
        b2,
        fs,
        s,
        i,
    ) == field_val(b1, fs, s, i) by {
        assert(field_ok(b1, fs, s, i));
        lemma_field_in_slot(fs, s, i);
        lemma_field_untouched(b1, b2, fs, s, i, slot_pos(fs, t), slot_pos(fs, t + 1));
    }
    assert forall|i: int| 0 <= i < fs.len() implies rec_val(b2, fs, s)[i] == rec_val(b1, fs, s)[i] by {
        assert(field_ok(b2, fs, s, i));
    }
    assert(rec_val(b2, fs, s) =~= rec_val(b1, fs, s));
}

/// A slot keeps its fields across a change confined to the page header.
pub proof fn lemma_slot_header_write(b1: Seq<u8>, b2: Seq<u8>, fs: Seq<FieldSpec>, s: int)
    requires
        fields_fit(fs),
        0 <= s,
        slot_ok(b1, fs, s),
        agree_outside(b1, b2, 0, 8),
    ensures
        slot_ok(b2, fs, s),
        rec_val(b2, fs, s) == rec_val(b1, fs, s),
{
    assert forall|i: int| 0 <= i < fs.len() implies #[trigger] field_ok(b2, fs, s, i) && field_val(
        b2,
        fs,
        s,
        i,
    ) == field_val(b1, fs, s, i) by {
        assert(field_ok(b1, fs, s, i));
        lemma_field_in_slot(fs, s, i);
        lemma_field_untouched(b1, b2, fs, s, i, 0, 8);
    }
    assert forall|i: int| 0 <= i < fs.len() implies rec_val(b2, fs, s)[i] == rec_val(b1, fs, s)[i] by {
        assert(field_ok(b2, fs, s, i));
    }
    assert(rec_val(b2, fs, s) =~= rec_val(b1, fs, s));
}

/// The page header is unchanged by a change confined to a slot.
pub proof fn lemma_header_untouched(b1: Seq<u8>, b2: Seq<u8>, fs: Seq<FieldSpec>, t: int)
    requires
        fields_fit(fs),
        0 <= t,
        8 <= b1.len(),
        agree_outside(b1, b2, slot_pos(fs, t), slot_pos(fs, t + 1)),
    ensures
        flag_of(b2) == flag_of(b1),
        num_of(b2) == num_of(b1),
{
    lemma_slot_pos_mono(fs, t, t);
    assert(b1[0] == b2[0]);
    assert(b1[1] == b2[1]);
    assert(b1[2] == b2[2]);
    assert(b1[3] == b2[3]);
    assert(b1[4] == b2[4]);
    assert(b1[5] == b2[5]);
    assert(b1[6] == b2[6]);
    assert(b1[7] == b2[7]);
}

/// A change confined to slot `t`, which stays well formed, keeps all slots well
/// formed and all other records.
pub proof fn lemma_slots_after_slot_write(b1: Seq<u8>, b2: Seq<u8>, fs: Seq<FieldSpec>, t: int)
    requires
        fields_fit(fs),
        0 <= t,
        slots_ok(b1, fs),
        agree_outside(b1, b2, slot_pos(fs, t), slot_pos(fs, t + 1)),
        slot_ok(b2, fs, t),
    ensures
        slots_ok(b2, fs),
        forall|s: int|
            0 <= s && s != t && slot_pos(fs, s + 1) <= b1.len() ==> #[trigger] rec_val(b2, fs, s)
                == rec_val(b1, fs, s),
{
    assert forall|s: int| 0 <= s && slot_pos(fs, s + 1) <= b2.len() implies #[trigger] slot_ok(b2, fs, s) by {
        if s != t {
            assert(slot_ok(b1, fs, s));
            lemma_slot_untouched(b1, b2, fs, s, t);
        }
    }
    assert forall|s: int| 0 <= s && s != t && slot_pos(fs, s + 1) <= b1.len() implies #[trigger] rec_val(b2, fs, s)
        == rec_val(b1, fs, s) by {
        assert(slot_ok(b1, fs, s));
        lemma_slot_untouched(b1, b2, fs, s, t);
    }
}

/// A change confined to the page header keeps all slots and records.
pub proof fn lemma_slots_after_header_write(b1: Seq<u8>, b2: Seq<u8>, fs: Seq<FieldSpec>)
    requires
        fields_fit(fs),
        slots_ok(b1, fs),
        agree_outside(b1, b2, 0, 8),
    ensures
        slots_ok(b2, fs),
        forall|s: int|
            0 <= s && slot_pos(fs, s + 1) <= b1.len() ==> #[trigger] rec_val(b2, fs, s) == rec_val(b1, fs, s),
{
    assert forall|s: int| 0 <= s && slot_pos(fs, s + 1) <= b2.len() implies #[trigger] slot_ok(b2, fs, s) by {
        assert(slot_ok(b1, fs, s));
        lemma_slot_header_write(b1, b2, fs, s);
    }
    assert forall|s: int| 0 <= s && slot_pos(fs, s + 1) <= b1.len() implies #[trigger] rec_val(b2, fs, s) == rec_val(b1, fs, s) by {
        assert(slot_ok(b1, fs, s));
        lemma_slot_header_write(b1, b2, fs, s);
    }
}

/// A change confined to field `i` of slot `t`, which stays well formed, keeps
/// all slots well formed, the other records, and the other fields of slot `t`.
pub proof fn lemma_slots_after_field_write(b1: Seq<u8>, b2: Seq<u8>, fs: Seq<FieldSpec>, t: int, i: int)
    requires
        fields_fit(fs),
        0 <= t,
        0 <= i < fs.len(),
        slot_pos(fs, t + 1) <= b1.len(),
        slots_ok(b1, fs),
        agree_outside(b1, b2, field_pos(fs, t, i), field_pos(fs, t, i) + field_bytes(fs[i])),
        field_ok(b2, fs, t, i),
    ensures
        slots_ok(b2, fs),
        forall|s: int|
            0 <= s && s != t && slot_pos(fs, s + 1) <= b1.len() ==> #[trigger] rec_val(b2, fs, s)
                == rec_val(b1, fs, s),
        rec_val(b2, fs, t) == rec_val(b1, fs, t).update(i, field_val(b2, fs, t, i)),
        flag_of(b2) == flag_of(b1),
        num_of(b2) == num_of(b1),
{
    lemma_field_in_slot(fs, t, i);
    assert(slot_ok(b1, fs, t));
    assert forall|j: int| 0 <= j < fs.len() && j != i implies #[trigger] field_ok(b2, fs, t, j) && field_val(b2, fs, t, j)
        == field_val(b1, fs, t, j) by {
        assert(field_ok(b1, fs, t, j));
        lemma_fields_disjoint(fs, t, j, t, i);
        lemma_field_untouched(b1, b2, fs, t, j, field_pos(fs, t, i), field_pos(fs, t, i) + field_bytes(fs[i]));
    }
    assert(slot_ok(b2, fs, t)) by {
        assert forall|j: int| 0 <= j < fs.len() implies #[trigger] field_ok(b2, fs, t, j) by {
            if j != i {
                assert(field_ok(b1, fs, t, j));
                lemma_fields_disjoint(fs, t, j, t, i);
                lemma_field_untouched(b1, b2, fs, t, j, field_pos(fs, t, i), field_pos(fs, t, i) + field_bytes(fs[i]));
            }
        }
    }
    assert forall|q: int| 0 <= q < b1.len() && (q < slot_pos(fs, t) || slot_pos(fs, t + 1) <= q) implies #[trigger] b1[q] == b2[q] by {
    }
    lemma_slots_after_slot_write(b1, b2, fs, t);
    lemma_header_untouched(b1, b2, fs, t);
    assert forall|j: int| 0 <= j < fs.len() implies rec_val(b2, fs, t)[j] == rec_val(b1, fs, t).update(i, field_val(b2, fs, t, i))[j] by {
        if j != i {
            assert(field_ok(b1, fs, t, j));
            lemma_fields_disjoint(fs, t, j, t, i);
            lemma_field_untouched(b1, b2, fs, t, j, field_pos(fs, t, i), field_pos(fs, t, i) + field_bytes(fs[i]));
        }
    }
    assert(rec_val(b2, fs, t) =~= rec_val(b1, fs, t).update(i, field_val(b2, fs, t, i)));
}

/// The in-use flag of slot `slot`: the integer at the start of the slot.
pub open spec fn slot_flag(b: Seq<u8>, fs: Seq<FieldSpec>, slot: int) -> i32 {
    int_at(b, slot_pos(fs, slot))
}

/// The flag of a slot that holds a record.
pub const USED: i32 = 1;

/// The flag of a free slot.
pub const EMPTY: i32 = 0;

/// Whether slot `s` lies in the page `b` and carries the in-use flag `flag`.
pub open spec fn has_flag(b: Seq<u8>, fs: Seq<FieldSpec>, s: int, flag: i32) -> bool {
    &&& 0 <= s
    &&& slot_pos(fs, s + 1) <= b.len()
    &&& slot_flag(b, fs, s) == flag
}

/// Whether `r` is the first slot after `from` that carries `flag`, or -1
/// where no later slot does.
pub open spec fn next_with_flag(b: Seq<u8>, fs: Seq<FieldSpec>, from: int, flag: i32, r: int) -> bool {
    if r < 0 {
        &&& r == -1
        &&& forall|s: int| from < s ==> !#[trigger] has_flag(b, fs, s, flag)
    } else {
        &&& from < r
        &&& has_flag(b, fs, r, flag)
        &&& forall|s: int| from < s < r ==> !#[trigger] has_flag(b, fs, s, flag)
    }
}

/// The flag of one slot lies apart from the flag of any other slot.
proof fn lemma_flags_apart(fs: Seq<FieldSpec>, s: int, t: int)
    requires
        fields_fit(fs),
        0 <= s,
        0 <= t,
        s != t,
    ensures
        slot_pos(fs, s) + 4 <= slot_pos(fs, t) || slot_pos(fs, t) + 4 <= slot_pos(fs, s),
        8 <= slot_pos(fs, s),
{
    crate::record::layout::lemma_sum_bytes_nonneg(fs);
    lemma_slot_pos_mono(fs, s, s);
    if s < t {
        lemma_slot_order(fs, s, t);
    } else {
        lemma_slot_order(fs, t, s);
    }
}

/// Writing the flag of slot `t` keeps every slot well formed, every record,
/// the page header and the flags of the other slots.
pub proof fn lemma_slot_flag_write(b: Seq<u8>, fs: Seq<FieldSpec>, t: int, v: i32)
    requires
        fields_fit(fs),
        0 <= t,
        slot_pos(fs, t + 1) <= b.len(),
        slots_ok(b, fs),
    ensures
        with_int(b, slot_pos(fs, t), v).len() == b.len(),
        slots_ok(with_int(b, slot_pos(fs, t), v), fs),
        forall|s: int|
            0 <= s && slot_pos(fs, s + 1) <= b.len() ==> #[trigger] rec_val(
                with_int(b, slot_pos(fs, t), v),
                fs,
                s,
            ) == rec_val(b, fs, s),
        forall|s: int|
            0 <= s && s != t && slot_pos(fs, s + 1) <= b.len() ==> #[trigger] slot_flag(
                with_int(b, slot_pos(fs, t), v),
                fs,
                s,
            ) == slot_flag(b, fs, s),
        slot_flag(with_int(b, slot_pos(fs, t), v), fs, t) == v,
        flag_of(with_int(b, slot_pos(fs, t), v)) == flag_of(b),
        num_of(with_int(b, slot_pos(fs, t), v)) == num_of(b),
{
    let sp = slot_pos(fs, t);
    let nb = with_int(b, sp, v);
    crate::record::layout::lemma_sum_bytes_nonneg(fs);
    lemma_slot_order(fs, t, t + 1);
    lemma_slot_pos_mono(fs, t, t);
    lemma_int_write_read(b, sp, v);
    lemma_with_int_agree(b, sp, v);
    crate::file::page::lemma_int_write_other(b, sp, v, 0);
    crate::file::page::lemma_int_write_other(b, sp, v, 4);
    assert forall|s: int, i: int|
        0 <= s && slot_pos(fs, s + 1) <= b.len() && 0 <= i < fs.len() implies #[trigger] field_ok(
            nb,
            fs,
            s,
            i,
        ) && field_val(nb, fs, s, i) == field_val(b, fs, s, i) by {
        assert(slot_ok(b, fs, s));
        assert(field_ok(b, fs, s, i));
        lemma_field_in_slot(fs, s, i);
        if s < t {
            lemma_slot_order(fs, s, t);
        } else if t < s {
            lemma_slot_order(fs, t, s);
        }
        lemma_field_untouched(b, nb, fs, s, i, sp, sp + 4);
    }
    assert forall|s: int| 0 <= s && slot_pos(fs, s + 1) <= nb.len() implies #[trigger] slot_ok(nb, fs, s) by {
        assert forall|i: int| 0 <= i < fs.len() implies #[trigger] field_ok(nb, fs, s, i) by {
            assert(field_ok(nb, fs, s, i) && field_val(nb, fs, s, i) == field_val(b, fs, s, i));
        }
    }
    assert forall|s: int| 0 <= s && slot_pos(fs, s + 1) <= b.len() implies #[trigger] rec_val(nb, fs, s)
        == rec_val(b, fs, s) by {
        assert forall|i: int| 0 <= i < fs.len() implies rec_val(nb, fs, s)[i] == rec_val(b, fs, s)[i] by {
            assert(field_ok(nb, fs, s, i) && field_val(nb, fs, s, i) == field_val(b, fs, s, i));
        }
        assert(rec_val(nb, fs, s) =~= rec_val(b, fs, s));
    }
    assert forall|s: int| 0 <= s && s != t && slot_pos(fs, s + 1) <= b.len() implies #[trigger] slot_flag(
        nb,
        fs,
        s,
    ) == slot_flag(b, fs, s) by {
        lemma_flags_apart(fs, s, t);
        lemma_slot_order(fs, s, s + 1);
        crate::file::page::lemma_int_write_other(b, sp, v, slot_pos(fs, s));
    }
}

/// A change confined to bytes `[lo, hi)` that lie apart from the flag of slot
/// `s` keeps that flag.
pub proof fn lemma_slot_flag_untouched(b1: Seq<u8>, b2: Seq<u8>, fs: Seq<FieldSpec>, s: int, lo: int, hi: int)
    requires
        fields_fit(fs),
        0 <= s,
        slot_pos(fs, s + 1) <= b1.len(),
        agree_outside(b1, b2, lo, hi),
        hi <= slot_pos(fs, s) || slot_pos(fs, s) + 4 <= lo,
    ensures
        slot_flag(b2, fs, s) == slot_flag(b1, fs, s),
{
    crate::record::layout::lemma_sum_bytes_nonneg(fs);
    lemma_slot_order(fs, s, s + 1);
    lemma_slot_pos_mono(fs, s, s);
    let p = slot_pos(fs, s);
    assert(b1[p] == b2[p]);
    assert(b1[p + 1] == b2[p + 1]);
    assert(b1[p + 2] == b2[p + 2]);
    assert(b1[p + 3] == b2[p + 3]);
}

/// A change confined to field `i` of slot `t` keeps the flags of all slots.
pub proof fn lemma_flags_after_field_write(b1: Seq<u8>, b2: Seq<u8>, fs: Seq<FieldSpec>, t: int, i: int)
    requires
        fields_fit(fs),
        0 <= t,
        0 <= i < fs.len(),
        agree_outside(b1, b2, field_pos(fs, t, i), field_pos(fs, t, i) + field_bytes(fs[i])),
    ensures
        forall|s: int|
            0 <= s && slot_pos(fs, s + 1) <= b1.len() ==> #[trigger] slot_flag(b2, fs, s) == slot_flag(b1, fs, s),
{
    lemma_field_in_slot(fs, t, i);
    assert forall|s: int| 0 <= s && slot_pos(fs, s + 1) <= b1.len() implies #[trigger] slot_flag(b2, fs, s)
        == slot_flag(b1, fs, s) by {
        if s < t {
            lemma_slot_order(fs, s, t);
        } else if t < s {
            lemma_slot_order(fs, t, s);
        }
        lemma_slot_order(fs, s, s + 1);
        crate::record::layout::lemma_sum_bytes_nonneg(fs);
        lemma_slot_flag_untouched(b1, b2, fs, s, field_pos(fs, t, i), field_pos(fs, t, i) + field_bytes(fs[i]));
    }
}

/// A stored field holds a value that fits the field.
pub proof fn lemma_stored_fits(b: Seq<u8>, fs: Seq<FieldSpec>, slot: int, i: int)
    requires
        0 <= i < fs.len(),
        field_ok(b, fs, slot, i),
    ensures
        val_fits(field_val(b, fs, slot, i), fs[i]),
{
    if fs[i].ftype != INTEGER {
        let p = field_pos(fs, slot, i);
        let bytes = crate::file::page::bytes_at(b, p);
        assert(bytes.len() == int_at(b, p));
        vstd::utf8::decode_utf8_encode_utf8(bytes);
    }
}

/// The indexed value of each record of a well-formed page fits its field.
pub proof fn lemma_rec_fits(b: Seq<u8>, fs: Seq<FieldSpec>, s: int)
    requires
        page_wf(b, fs),
        fs.len() >= 1,
        0 <= s < num_of(b),
    ensures
        val_fits(recs_of(b, fs)[s][fs.len() - 1], fs[fs.len() - 1]),
{
    lemma_slot_pos_mono(fs, s + 1, num_of(b) as int);
    assert(slot_ok(b, fs, s));
    assert(field_ok(b, fs, s, fs.len() - 1));
    lemma_stored_fits(b, fs, s, fs.len() - 1);
}

/// Writing the flag of a well-formed page keeps it well formed, with the
/// same records.
pub proof fn lemma_flag_write(b: Seq<u8>, fs: Seq<FieldSpec>, v: i32)
    requires
        page_wf(b, fs),
    ensures
        page_wf(with_int(b, 0, v), fs),
        recs_of(with_int(b, 0, v), fs) == recs_of(b, fs),
        flag_of(with_int(b, 0, v)) == v,
        num_of(with_int(b, 0, v)) == num_of(b),
{
    let nb = with_int(b, 0, v);
    lemma_int_write_read(b, 0, v);
    lemma_with_int_agree(b, 0, v);
    crate::file::page::lemma_int_write_other(b, 0, v, 4);
    lemma_slots_after_header_write(b, nb, fs);
    assert(recs_of(nb, fs) =~= recs_of(b, fs)) by {
        assert forall|s: int| 0 <= s < recs_of(nb, fs).len() implies recs_of(nb, fs)[s] == recs_of(
            b,
            fs,
        )[s] by {
            lemma_slot_pos_mono(fs, s + 1, num_of(b) as int);
        }
    }
}

} // verus!

use crate::types::BcsvError;
use crate::types::DataType;
use crate::types::Field;
use vstd::prelude::*;

verus! {

/// Field `j` is laid out before field `i`: it has the smaller hash, or the
/// same hash and the earlier declaration.
pub open spec fn laid_before(fields: Seq<Field>, j: int, i: int) -> bool {
    fields[j].hash < fields[i].hash || (fields[j].hash == fields[i].hash && j < i)
}

/// The bytes taken by those of the first `n` fields that are laid out
/// before field `i`.
pub open spec fn width_before(fields: Seq<Field>, i: int, n: int) -> int
    decreases n,
{
    if n <= 0 {
        0
    } else {
        width_before(fields, i, n - 1) + if laid_before(fields, n - 1, i) {
            fields[n - 1].datatype.spec_size() as int
        } else {
            0
        }
    }
}

/// The byte offset of field `i` within a record.
pub open spec fn layout_offset(fields: Seq<Field>, i: int) -> int {
    width_before(fields, i, fields.len() as int)
}

/// The bytes taken by the first `n` fields.
pub open spec fn width_upto(fields: Seq<Field>, n: int) -> int
    decreases n,
{
    if n <= 0 {
        0
    } else {
        width_upto(fields, n - 1) + fields[n - 1].datatype.spec_size() as int
    }
}

/// The byte size of one record: the widths of all fields together.
pub open spec fn record_size(fields: Seq<Field>) -> int {
    width_upto(fields, fields.len() as int)
}

/// Two fields share a hash but not a datatype.
pub open spec fn schema_conflict(fields: Seq<Field>) -> bool {
    exists|i: int, j: int|
        0 <= i < j < fields.len() && fields[i].hash == fields[j].hash && fields[i].datatype
            != fields[j].datatype
}

/// The declared fields with every byte offset assigned.
pub open spec fn laid_out(fields: Seq<Field>) -> Seq<Field> {
    Seq::new(
        fields.len(),
        |i: int|
            Field {
                hash: fields[i].hash,
                mask: fields[i].mask,
                dataoff: layout_offset(fields, i) as u16,
                shift: fields[i].shift,
                datatype: fields[i].datatype,
            },
    )
}

/// More fields take no fewer bytes.
pub proof fn lemma_width_upto_monotone(fields: Seq<Field>, m: int, n: int)
    requires
        0 <= m <= n,
    ensures
        0 <= width_upto(fields, m) <= width_upto(fields, n),
    decreases n,
{
    if m < n {
        lemma_width_upto_monotone(fields, m, n - 1);
    } else if n > 0 {
        lemma_width_upto_monotone(fields, m - 1, n - 1);
    }
}

/// A field's offset and its own width never pass the record size.
pub proof fn lemma_offset_within_record(fields: Seq<Field>, i: int)
    requires
        0 <= i < fields.len(),
    ensures
        0 <= layout_offset(fields, i),
        layout_offset(fields, i) + fields[i].datatype.spec_size() <= record_size(fields),
{
    lemma_width_before_bound(fields, i, fields.len() as int);
}

/// What is laid out before a field, and the field itself, are part of the
/// record.
proof fn lemma_width_before_bound(fields: Seq<Field>, i: int, n: int)
    requires
        0 <= i < fields.len(),
        0 <= n <= fields.len(),
    ensures
        0 <= width_before(fields, i, n),
        width_before(fields, i, n) + (if i < n {
            fields[i].datatype.spec_size() as int
        } else {
            0
        }) <= width_upto(fields, n),
    decreases n,
{
    if n > 0 {
        lemma_width_before_bound(fields, i, n - 1);
    }
}

/// Looks for two fields that share a hash but not a datatype.
fn has_conflict(fields: &Vec<Field>) -> (b: bool)
    ensures
        b == schema_conflict(fields@),
{
    let n = fields.len();
    let mut j: usize = 0;
    while j < n
        invariant
            j <= n,
            n == fields.len(),
            forall|a: int, b: int|
                0 <= a < b < j ==> !(fields[a].hash == fields[b].hash && fields[a].datatype
                    != fields[b].datatype),
        decreases n - j,
    {
        let mut i: usize = 0;
        while i < j
            invariant
                i <= j < n,
                n == fields.len(),
                forall|a: int|
                    0 <= a < i ==> !(fields[a].hash == fields[j as int].hash && fields[a].datatype
                        != fields[j as int].datatype),
            decreases j - i,
        {
            if fields[i].hash == fields[j].hash && fields[i].datatype != fields[j].datatype {
                assert(schema_conflict(fields@));
                return true;
            }
            i += 1;
        }
        j += 1;
    }
    false
}

/// Computes the byte layout of the declared fields: each field's offset is
/// the width of all fields with a smaller hash, and of the earlier ones
/// among those with the same hash. Returns the record size.
///
/// Fails with `SchemaConflict` when two fields share a hash but not a
/// datatype, and with `MalformedHeader` when the record would be larger
/// than a 16-bit offset can address; the fields are then left as they were.
pub fn assign_offsets(fields: &mut Vec<Field>) -> (r: Result<u32, BcsvError>)
    ensures
        schema_conflict(old(fields)@) ==> r == Err::<u32, BcsvError>(BcsvError::SchemaConflict)
            && final(fields)@ == old(fields)@,
        !schema_conflict(old(fields)@) && record_size(old(fields)@) > 0xFFFF ==> r == Err::<
            u32,
            BcsvError,
        >(BcsvError::MalformedHeader) && final(fields)@ == old(fields)@,
        !schema_conflict(old(fields)@) && record_size(old(fields)@) <= 0xFFFF ==> r == Ok::<
            u32,
            BcsvError,
        >(record_size(old(fields)@) as u32) && final(fields)@ == laid_out(old(fields)@),
{
    if has_conflict(fields) {
        return Err(BcsvError::SchemaConflict);
    }
    let n = fields.len();
    let ghost declared = fields@;
    let mut total: u32 = 0;
    let mut k: usize = 0;
    while k < n
        invariant
            k <= n,
            n == fields.len(),
            fields@ == declared,
            declared == old(fields)@,
            !schema_conflict(declared),
            total == width_upto(declared, k as int),
            total <= 0xFFFF,
        decreases n - k,
    {
        total = total + fields[k].datatype.getdtsize() as u32;
        k += 1;
        if total > 0xFFFF {
            proof {
                lemma_width_upto_monotone(declared, k as int, n as int);
            }
            return Err(BcsvError::MalformedHeader);
        }
    }
    let mut i: usize = 0;
    while i < n
        invariant
            i <= n,
            n == fields.len(),
            n == declared.len(),
            declared == old(fields)@,
            !schema_conflict(declared),
            total == record_size(declared),
            total <= 0xFFFF,
            forall|a: int|
                0 <= a < n ==> (#[trigger] fields[a]).hash == declared[a].hash && fields[a].datatype
                    == declared[a].datatype,
            forall|a: int| 0 <= a < i ==> #[trigger] fields[a] == laid_out(declared)[a],
            forall|a: int| i <= a < n ==> #[trigger] fields[a] == declared[a],
        decreases n - i,
    {
        let mut off: u16 = 0;
        let mut j: usize = 0;
        while j < n
            invariant
                j <= n,
                i < n,
                n == fields.len(),
                n == declared.len(),
                total == record_size(declared),
                total <= 0xFFFF,
                forall|a: int|
                    0 <= a < n ==> (#[trigger] fields[a]).hash == declared[a].hash
                        && fields[a].datatype == declared[a].datatype,
                off == width_before(declared, i as int, j as int),
            decreases n - j,
        {
            proof {
                lemma_width_before_bound(declared, i as int, j as int + 1);
                lemma_width_upto_monotone(declared, j as int + 1, n as int);
            }
            let before = fields[j].hash < fields[i].hash || (fields[j].hash == fields[i].hash && j
                < i);
            if before {
                off = off + fields[j].datatype.getdtsize();
            }
            j += 1;
        }
        let mut field = fields[i];
        field.dataoff = off;
        fields.set(i, field);
        i += 1;
    }
    assert(fields@ =~= laid_out(declared));
    Ok(total)
}

/// What the fields declare: the hash and the datatype of each, in
/// declaration order.
pub open spec fn declared(fields: Seq<Field>) -> Seq<(u32, DataType)> {
    fields.map_values(|f: Field| (f.hash, f.datatype))
}

/// No two fields share a hash.
pub open spec fn distinct_hashes(fields: Seq<Field>) -> bool {
    forall|i: int, j: int| 0 <= i < j < fields.len() ==> fields[i].hash != fields[j].hash
}

/// The sum of the weights of all items.
spec fn total_weight(items: Seq<(u32, DataType)>, weight: spec_fn((u32, DataType)) -> int) -> int
    decreases items.len(),
{
    if items.len() == 0 {
        0
    } else {
        total_weight(items.drop_last(), weight) + weight(items.last())
    }
}

/// The width of an item whose hash is below `h`, and nothing for any other.
spec fn width_if_below(h: int) -> spec_fn((u32, DataType)) -> int {
    |item: (u32, DataType)|
        if item.0 < h {
            item.1.spec_size() as int
        } else {
            0
        }
}

/// One for an item with hash `h`, and nothing for any other.
spec fn one_if_hash(h: u32) -> spec_fn((u32, DataType)) -> int {
    |item: (u32, DataType)|
        if item.0 == h {
            1
        } else {
            0
        }
}

/// Taking an item out takes its weight off the sum.
proof fn lemma_weight_without(
    items: Seq<(u32, DataType)>,
    weight: spec_fn((u32, DataType)) -> int,
    k: int,
)
    requires
        0 <= k < items.len(),
    ensures
        total_weight(items, weight) == total_weight(items.remove(k), weight) + weight(items[k]),
    decreases items.len(),
{
    if k == items.len() - 1 {
        assert(items.remove(k) =~= items.drop_last());
    } else {
        lemma_weight_without(items.drop_last(), weight, k);
        assert(items.remove(k).drop_last() =~= items.drop_last().remove(k));
        assert(items.remove(k).last() == items.last());
    }
}

/// The sum of the weights does not depend on the order of the items.
proof fn lemma_weight_of_permutation(
    a: Seq<(u32, DataType)>,
    b: Seq<(u32, DataType)>,
    weight: spec_fn((u32, DataType)) -> int,
)
    requires
        a.to_multiset() == b.to_multiset(),
    ensures
        total_weight(a, weight) == total_weight(b, weight),
    decreases a.len(),
{
    broadcast use vstd::seq_lib::group_to_multiset_ensures;

    vstd::seq_lib::to_multiset_len(a);
    vstd::seq_lib::to_multiset_len(b);
    if a.len() == 0 {
    } else {
        let last = a.last();
        assert(a.contains(last)) by {
            assert(a[a.len() - 1] == last);
        }
        assert(b.to_multiset().count(last) > 0);
        assert(b.contains(last));
        let k = choose|k: int| 0 <= k < b.len() && b[k] == last;
        assert(a.drop_last() =~= a.remove(a.len() - 1));
        assert(a.drop_last().to_multiset() =~= b.remove(k).to_multiset());
        lemma_weight_of_permutation(a.drop_last(), b.remove(k), weight);
        lemma_weight_without(b, weight, k);
    }
}

/// A count is never negative.
proof fn lemma_weight_nonnegative(items: Seq<(u32, DataType)>, h: u32)
    ensures
        0 <= total_weight(items, one_if_hash(h)),
    decreases items.len(),
{
    if items.len() > 0 {
        lemma_weight_nonnegative(items.drop_last(), h);
    }
}

/// Among fields with distinct hashes at most one has a given hash.
proof fn lemma_distinct_count(fields: Seq<Field>, h: u32, n: int)
    requires
        distinct_hashes(fields),
        0 <= n <= fields.len(),
    ensures
        total_weight(declared(fields).take(n), one_if_hash(h)) <= 1,
        (forall|j: int| 0 <= j < n ==> fields[j].hash != h) ==> total_weight(
            declared(fields).take(n),
            one_if_hash(h),
        ) == 0,
    decreases n,
{
    if n > 0 {
        lemma_distinct_count(fields, h, n - 1);
        assert(declared(fields).take(n).drop_last() =~= declared(fields).take(n - 1));
    }
}

/// With distinct hashes, a field's offset is the width of all fields with a
/// smaller hash.
proof fn lemma_offset_by_hash(fields: Seq<Field>, i: int, n: int)
    requires
        distinct_hashes(fields),
        0 <= i < fields.len(),
        0 <= n <= fields.len(),
    ensures
        width_before(fields, i, n) == total_weight(
            declared(fields).take(n),
            width_if_below(fields[i].hash as int),
        ),
        width_upto(fields, n) == total_weight(declared(fields).take(n), width_if_below(0x1_0000_0000)),
    decreases n,
{
    if n > 0 {
        lemma_offset_by_hash(fields, i, n - 1);
        assert(declared(fields).take(n).drop_last() =~= declared(fields).take(n - 1));
    }
}

/// Two fields of a permutation of fields with distinct hashes have distinct
/// hashes too.
proof fn lemma_permutation_distinct(a: Seq<Field>, b: Seq<Field>)
    requires
        declared(a).to_multiset() == declared(b).to_multiset(),
        distinct_hashes(a),
    ensures
        distinct_hashes(b),
{
    assert forall|p: int, q: int| 0 <= p < q < b.len() implies b[p].hash != b[q].hash by {
        if b[p].hash == b[q].hash {
            let h = b[p].hash;
            let items = declared(b);
            let weight = one_if_hash(h);
            lemma_weight_without(items, weight, q);
            lemma_weight_without(items.remove(q), weight, p);
            lemma_weight_nonnegative(items.remove(q).remove(p), h);
            lemma_weight_of_permutation(declared(a), items, weight);
            lemma_distinct_count(a, h, a.len() as int);
            assert(declared(a).take(a.len() as int) =~= declared(a));
        }
    }
}

/// The layout does not depend on the declaration order: where two
/// declarations hold the same fields, by hash and datatype, and no two
/// fields share a hash, the records are equally large and the field with a
/// given hash has the same offset in both.
pub proof fn lemma_layout_order_independent(a: Seq<Field>, b: Seq<Field>, i: int, j: int)
    requires
        declared(a).to_multiset() == declared(b).to_multiset(),
        distinct_hashes(a),
        0 <= i < a.len(),
        0 <= j < b.len(),
        a[i].hash == b[j].hash,
    ensures
        record_size(a) == record_size(b),
        layout_offset(a, i) == layout_offset(b, j),
        laid_out(a)[i].dataoff == laid_out(b)[j].dataoff,
{
    lemma_permutation_distinct(a, b);
    lemma_offset_by_hash(a, i, a.len() as int);
    lemma_offset_by_hash(b, j, b.len() as int);
    assert(declared(a).take(a.len() as int) =~= declared(a));
    assert(declared(b).take(b.len() as int) =~= declared(b));
    lemma_weight_of_permutation(declared(a), declared(b), width_if_below(a[i].hash as int));
    lemma_weight_of_permutation(declared(a), declared(b), width_if_below(0x1_0000_0000));
}

} // verus!

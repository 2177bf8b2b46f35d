use crate::text::index_from;
use crate::text::lemma_index_from_is;
use vstd::prelude::*;
use vstd::slice::slice_subrange;
use vstd::utf8::decode_utf8;
use vstd::utf8::valid_utf8;

verus! {

/// The text that a lossy UTF-8 decoding makes of `bytes`.
pub uninterp spec fn lossy_utf8(bytes: Seq<u8>) -> Seq<char>;

/// The text of a byte run: its UTF-8 decoding where the run is valid UTF-8,
/// and the lossy decoding otherwise.
pub open spec fn text_of(run: Seq<u8>) -> Seq<char> {
    if valid_utf8(run) {
        decode_utf8(run)
    } else {
        lossy_utf8(run)
    }
}

/// Decodes bytes with std's `String::from_utf8_lossy`, which returns valid
/// UTF-8 unchanged and replaces each invalid sequence otherwise.
#[verifier::external_body]
pub(crate) fn lossy_string(bytes: &[u8]) -> (s: String)
    ensures
        s@ == lossy_utf8(bytes@),
        valid_utf8(bytes@) ==> s@ == decode_utf8(bytes@),
{
    String::from_utf8_lossy(bytes).into_owned()
}

/// The position of the first zero byte at or after `start`, or the length
/// of `bytes` where there is none.
pub open spec fn nul_from(bytes: Seq<u8>, start: int) -> int {
    index_from(bytes, 0u8, start)
}

/// The zero-terminated run that begins at `start`, without its terminator;
/// `None` where `start` lies outside the bytes or no zero byte follows.
pub open spec fn run_at(bytes: Seq<u8>, start: int) -> Option<Seq<u8>> {
    if 0 <= start && nul_from(bytes, start) < bytes.len() {
        Some(bytes.subrange(start, nul_from(bytes, start)))
    } else {
        None
    }
}

/// Finds the zero-terminated run that begins at `start`.
pub fn read_run(bytes: &[u8], start: usize) -> (r: Option<&[u8]>)
    ensures
        match r {
            Some(run) => run_at(bytes@, start as int) == Some(run@),
            None => run_at(bytes@, start as int) is None,
        },
{
    if start >= bytes.len() {
        return None;
    }
    let mut end: usize = start;
    while end < bytes.len() && bytes[end] != 0
        invariant
            start <= end <= bytes.len(),
            forall|i: int| start <= i < end ==> bytes@[i] != 0,
        decreases bytes.len() - end,
    {
        end += 1;
    }
    proof {
        lemma_index_from_is(bytes@, 0u8, start as int, end as int);
    }
    if end >= bytes.len() {
        None
    } else {
        Some(slice_subrange(bytes, start, end))
    }
}

/// The strings among the first `n` of `strs`, each once, in the order of
/// first appearance.
pub open spec fn distinct(strs: Seq<Seq<u8>>, n: int) -> Seq<Seq<u8>>
    decreases n,
{
    if n <= 0 {
        Seq::empty()
    } else {
        let earlier = distinct(strs, n - 1);
        if earlier.contains(strs[n - 1]) {
            earlier
        } else {
            earlier.push(strs[n - 1])
        }
    }
}

/// The first `n` entries, each followed by a zero byte, one after the other.
pub open spec fn joined(entries: Seq<Seq<u8>>, n: int) -> Seq<u8>
    decreases n,
{
    if n <= 0 {
        Seq::empty()
    } else {
        joined(entries, n - 1) + entries[n - 1] + seq![0u8]
    }
}

/// The index of the first entry from `k` on that equals `s`, or the number
/// of entries where there is none.
pub open spec fn position(entries: Seq<Seq<u8>>, s: Seq<u8>, k: int) -> int
    decreases entries.len() - k,
{
    if k < 0 || k >= entries.len() {
        entries.len() as int
    } else if entries[k] == s {
        k
    } else {
        position(entries, s, k + 1)
    }
}

/// The byte offset at which the entry `s` begins in the pool made of
/// `entries`; the length of the pool where `s` is no entry.
pub open spec fn offset_in(entries: Seq<Seq<u8>>, s: Seq<u8>) -> int {
    joined(entries, position(entries, s, 0)).len() as int
}

/// The pool that interning `strs` in order builds: every distinct string
/// once, zero-terminated, in the order of first appearance.
pub open spec fn pool_bytes(strs: Seq<Seq<u8>>) -> Seq<u8> {
    let entries = distinct(strs, strs.len() as int);
    joined(entries, entries.len() as int)
}

/// The pool offset that string `i` of `strs` is given.
pub open spec fn pool_offset(strs: Seq<Seq<u8>>, i: int) -> int {
    offset_in(distinct(strs, strs.len() as int), strs[i])
}

/// The position lies among the entries or behind them; an entry at the
/// position is `s`, and no entry before it is.
pub proof fn lemma_position_bounds(entries: Seq<Seq<u8>>, s: Seq<u8>, k: int)
    requires
        0 <= k <= entries.len(),
    ensures
        k <= position(entries, s, k) <= entries.len(),
        position(entries, s, k) < entries.len() ==> entries[position(entries, s, k)] == s,
        forall|j: int| k <= j < position(entries, s, k) ==> entries[j] != s,
    decreases entries.len() - k,
{
    if k < entries.len() && entries[k] != s {
        lemma_position_bounds(entries, s, k + 1);
    }
}

/// The index of an entry that no earlier entry equals is its position.
pub proof fn lemma_position_is(entries: Seq<Seq<u8>>, s: Seq<u8>, k: int, at: int)
    requires
        0 <= k <= at <= entries.len(),
        at < entries.len() ==> entries[at] == s,
        forall|j: int| k <= j < at ==> entries[j] != s,
    ensures
        position(entries, s, k) == at,
    decreases at - k,
{
    if k < at {
        lemma_position_is(entries, s, k + 1, at);
    }
}

/// The bytes of the first `n` entries depend on those entries alone.
pub proof fn lemma_joined_prefix(a: Seq<Seq<u8>>, b: Seq<Seq<u8>>, n: int)
    requires
        0 <= n <= a.len(),
        n <= b.len(),
        forall|j: int| 0 <= j < n ==> a[j] == b[j],
    ensures
        joined(a, n) == joined(b, n),
    decreases n,
{
    if n > 0 {
        lemma_joined_prefix(a, b, n - 1);
    }
}

/// The bytes of fewer entries are the beginning of the bytes of more.
pub proof fn lemma_joined_monotone(entries: Seq<Seq<u8>>, m: int, n: int)
    requires
        0 <= m <= n,
    ensures
        joined(entries, m).len() <= joined(entries, n).len(),
        joined(entries, n).take(joined(entries, m).len() as int) == joined(entries, m),
    decreases n - m,
{
    if m < n {
        lemma_joined_monotone(entries, m, n - 1);
        assert(joined(entries, n).take(joined(entries, m).len() as int) =~= joined(
            entries,
            n - 1,
        ).take(joined(entries, m).len() as int));
    } else {
        assert(joined(entries, n).take(joined(entries, m).len() as int) =~= joined(entries, m));
    }
}

/// The distinct strings grow only at the end, hold every string seen, and
/// hold none twice.
pub proof fn lemma_distinct(strs: Seq<Seq<u8>>, m: int, n: int)
    requires
        0 <= m <= n <= strs.len(),
    ensures
        distinct(strs, m).len() <= distinct(strs, n).len() <= n,
        forall|j: int| 0 <= j < distinct(strs, m).len() ==> distinct(strs, m)[j] == distinct(
            strs,
            n,
        )[j],
        forall|i: int| 0 <= i < n ==> distinct(strs, n).contains(#[trigger] strs[i]),
        forall|s: Seq<u8>|
            distinct(strs, n).contains(s) ==> exists|i: int| 0 <= i < n && strs[i] == s,
        distinct(strs, n).no_duplicates(),
    decreases n,
{
    if n > 0 {
        let earlier = distinct(strs, n - 1);
        let now = distinct(strs, n);
        lemma_distinct(strs, if m < n {
            m
        } else {
            n - 1
        }, n - 1);
        assert forall|i: int| 0 <= i < n implies now.contains(#[trigger] strs[i]) by {
            if i < n - 1 {
                assert(earlier.contains(strs[i]));
                let j = choose|j: int| 0 <= j < earlier.len() && earlier[j] == strs[i];
                assert(now[j] == strs[i]);
            } else if earlier.contains(strs[n - 1]) {
            } else {
                assert(now[earlier.len() as int] == strs[n - 1]);
            }
        }
        assert forall|s: Seq<u8>| now.contains(s) implies exists|i: int|
            0 <= i < n && strs[i] == s by {
            let j = choose|j: int| 0 <= j < now.len() && now[j] == s;
            if j < earlier.len() {
                assert(earlier.contains(s));
                let i = choose|i: int| 0 <= i < n - 1 && strs[i] == s;
                assert(0 <= i < n && strs[i] == s);
            } else {
                assert(strs[n - 1] == s);
            }
        }
    }
}

/// The distinct strings among the first `n` depend on those `n` alone.
pub proof fn lemma_distinct_prefix(a: Seq<Seq<u8>>, b: Seq<Seq<u8>>, n: int)
    requires
        0 <= n <= a.len(),
        n <= b.len(),
        forall|j: int| 0 <= j < n ==> a[j] == b[j],
    ensures
        distinct(a, n) == distinct(b, n),
    decreases n,
{
    if n > 0 {
        lemma_distinct_prefix(a, b, n - 1);
    }
}

/// An entry keeps its offset when another entry is appended.
pub proof fn lemma_offset_stable(entries: Seq<Seq<u8>>, s: Seq<u8>, more: Seq<u8>)
    requires
        entries.contains(s),
    ensures
        offset_in(entries.push(more), s) == offset_in(entries, s),
{
    let longer = entries.push(more);
    lemma_position_bounds(entries, s, 0);
    let at = position(entries, s, 0);
    if at >= entries.len() {
        let j = choose|j: int| 0 <= j < entries.len() && entries[j] == s;
        assert(false);
    }
    assert forall|j: int| 0 <= j < at implies longer[j] != s by {
        assert(longer[j] == entries[j]);
    }
    assert(longer[at] == s);
    lemma_position_is(longer, s, 0, at);
    lemma_joined_prefix(entries, longer, at);
}

/// Compares two byte strings.
pub fn bytes_equal(a: &[u8], b: &[u8]) -> (r: bool)
    ensures
        r == (a@ == b@),
{
    if a.len() != b.len() {
        return false;
    }
    let mut i: usize = 0;
    while i < a.len()
        invariant
            i <= a.len(),
            a.len() == b.len(),
            forall|j: int| 0 <= j < i ==> a@[j] == b@[j],
        decreases a.len() - i,
    {
        if a[i] != b[i] {
            return false;
        }
        i += 1;
    }
    assert(a@ =~= b@);
    true
}

/// A string pool under construction: the distinct strings interned so far
/// and the bytes they make.
pub struct StringPool {
    entries: Vec<Vec<u8>>,
    offsets: Vec<usize>,
    bytes: Vec<u8>,
}

impl StringPool {
    /// The distinct strings in the pool, in the order in which they came.
    pub closed spec fn entries(&self) -> Seq<Seq<u8>> {
        self.entries@.map_values(|e: Vec<u8>| e@)
    }

    /// The bytes of the pool.
    pub closed spec fn bytes(&self) -> Seq<u8> {
        self.bytes@
    }

    /// No string is held twice, and the bytes are the entries one after the
    /// other, each with its terminator.
    pub closed spec fn wf(&self) -> bool {
        &&& self.offsets@.len() == self.entries@.len()
        &&& self.entries().no_duplicates()
        &&& self.bytes@ == joined(self.entries(), self.entries().len() as int)
        &&& forall|k: int|
            0 <= k < self.offsets@.len() ==> #[trigger] self.offsets@[k] == joined(
                self.entries(),
                k,
            ).len()
    }

    /// The bytes of a pool are its entries one after the other, each with
    /// its terminator, and no entry comes twice.
    pub proof fn lemma_bytes(self)
        requires
            self.wf(),
        ensures
            self.bytes() == joined(self.entries(), self.entries().len() as int),
            self.entries().no_duplicates(),
    {
    }

    /// An empty pool.
    pub fn new() -> (pool: StringPool)
        ensures
            pool.wf(),
            pool.entries() == Seq::<Seq<u8>>::empty(),
            pool.bytes() == Seq::<u8>::empty(),
    {
        let pool = StringPool { entries: Vec::new(), offsets: Vec::new(), bytes: Vec::new() };
        assert(pool.entries() =~= Seq::<Seq<u8>>::empty());
        pool
    }

    /// Gives the offset of `s` in the pool, appending `s` and a zero byte
    /// where the pool does not hold it yet.
    pub fn intern(&mut self, s: &[u8]) -> (off: usize)
        requires
            old(self).wf(),
        ensures
            final(self).wf(),
            off == offset_in(old(self).entries(), s@),
            off == offset_in(final(self).entries(), s@),
            old(self).entries().contains(s@) ==> final(self).entries() == old(self).entries()
                && final(self).bytes() == old(self).bytes(),
            !old(self).entries().contains(s@) ==> final(self).entries() == old(
                self,
            ).entries().push(s@) && final(self).bytes() == old(self).bytes() + s@ + seq![0u8],
    {
        let n = self.entries.len();
        let mut k: usize = 0;
        while k < n
            invariant
                k <= n,
                n == self.entries@.len(),
                *self == *old(self),
                self.wf(),
                forall|j: int| 0 <= j < k ==> self.entries()[j] != s@,
            decreases n - k,
        {
            if bytes_equal(self.entries[k].as_slice(), s) {
                proof {
                    assert(self.entries()[k as int] == s@);
                    lemma_position_is(self.entries(), s@, 0, k as int);
                    assert(self.entries().contains(s@));
                }
                return self.offsets[k];
            }
            k += 1;
        }
        let off = self.bytes.len();
        let ghost before = self.entries();
        proof {
            lemma_position_is(before, s@, 0, n as int);
            assert(!before.contains(s@));
        }
        let mut entry: Vec<u8> = Vec::new();
        let mut i: usize = 0;
        while i < s.len()
            invariant
                i <= s.len(),
                entry@ == s@.take(i as int),
                self.bytes@ == old(self).bytes@ + s@.take(i as int),
                self.entries == old(self).entries,
                self.offsets == old(self).offsets,
            decreases s.len() - i,
        {
            entry.push(s[i]);
            self.bytes.push(s[i]);
            assert(s@.take(i + 1) =~= s@.take(i as int).push(s@[i as int]));
            i += 1;
        }
        assert(s@.take(i as int) =~= s@);
        self.bytes.push(0u8);
        self.entries.push(entry);
        self.offsets.push(off);
        proof {
            let after = self.entries();
            assert(after =~= before.push(s@));
            assert(self.bytes@ =~= old(self).bytes@ + s@ + seq![0u8]);
            lemma_joined_prefix(before, after, n as int);
            assert(joined(after, n + 1) == joined(after, n as int) + after[n as int] + seq![0u8]);
            assert forall|k: int| 0 <= k < self.offsets@.len() implies #[trigger] self.offsets@[k]
                == joined(after, k).len() by {
                lemma_joined_prefix(before, after, k);
            }
            lemma_position_is(after, s@, 0, n as int);
        }
        off
    }

    /// The bytes of the finished pool.
    pub fn into_bytes(self) -> (out: Vec<u8>)
        ensures
            out@ == self.bytes(),
    {
        self.bytes
    }
}

/// The number of zero bytes.
pub open spec fn count_zero(bytes: Seq<u8>) -> nat
    decreases bytes.len(),
{
    if bytes.len() == 0 {
        0
    } else {
        count_zero(bytes.drop_last()) + if bytes.last() == 0 {
            1nat
        } else {
            0nat
        }
    }
}

/// The zero bytes of two byte strings add up.
proof fn lemma_count_zero_concat(a: Seq<u8>, b: Seq<u8>)
    ensures
        count_zero(a + b) == count_zero(a) + count_zero(b),
    decreases b.len(),
{
    if b.len() == 0 {
        assert(a + b =~= a);
    } else {
        lemma_count_zero_concat(a, b.drop_last());
        assert((a + b).drop_last() =~= a + b.drop_last());
    }
}

/// Bytes without a zero byte count none.
proof fn lemma_count_zero_none(s: Seq<u8>)
    requires
        !s.contains(0u8),
    ensures
        count_zero(s) == 0,
    decreases s.len(),
{
    if s.len() > 0 {
        assert(s[s.len() - 1] != 0);
        assert forall|i: int| 0 <= i < s.drop_last().len() implies s.drop_last()[i] != 0 by {
            assert(s[i] != 0);
        }
        lemma_count_zero_none(s.drop_last());
    }
}

/// Entries without zero bytes bring one zero byte each: their terminator.
proof fn lemma_count_zero_joined(entries: Seq<Seq<u8>>, n: int)
    requires
        0 <= n <= entries.len(),
        forall|k: int| 0 <= k < entries.len() ==> !(#[trigger] entries[k]).contains(0u8),
    ensures
        count_zero(joined(entries, n)) == n,
    decreases n,
{
    if n > 0 {
        lemma_count_zero_joined(entries, n - 1);
        lemma_count_zero_none(entries[n - 1]);
        lemma_count_zero_concat(joined(entries, n - 1), entries[n - 1]);
        lemma_count_zero_concat(joined(entries, n - 1) + entries[n - 1], seq![0u8]);
        assert(seq![0u8].drop_last() =~= Seq::<u8>::empty());
        assert(count_zero(Seq::<u8>::empty()) == 0);
        assert(seq![0u8].last() == 0);
        assert(count_zero(seq![0u8]) == 1);
    }
}

/// However often the strings repeat, the pool holds each distinct string
/// once: it has as many entries as there are distinct strings, no entry
/// twice, and, where no string holds a zero byte, as many zero bytes.
pub proof fn lemma_pool_holds_each_string_once(strs: Seq<Seq<u8>>)
    ensures
        distinct(strs, strs.len() as int).no_duplicates(),
        distinct(strs, strs.len() as int).to_set() == strs.to_set(),
        distinct(strs, strs.len() as int).len() == strs.to_set().len(),
        (forall|i: int| 0 <= i < strs.len() ==> !(#[trigger] strs[i]).contains(0u8))
            ==> count_zero(pool_bytes(strs)) == strs.to_set().len(),
{
    let entries = distinct(strs, strs.len() as int);
    lemma_distinct(strs, 0, strs.len() as int);
    assert(entries.to_set() =~= strs.to_set()) by {
        assert forall|s: Seq<u8>| entries.to_set().contains(s) <==> strs.to_set().contains(s) by {
            if entries.contains(s) {
                let i = choose|i: int| 0 <= i < strs.len() && strs[i] == s;
                assert(strs.contains(s));
            }
            if strs.contains(s) {
                let i = choose|i: int| 0 <= i < strs.len() && strs[i] == s;
                assert(entries.contains(strs[i]));
            }
        }
    }
    entries.unique_seq_to_set();
    if forall|i: int| 0 <= i < strs.len() ==> !(#[trigger] strs[i]).contains(0u8) {
        assert forall|k: int| 0 <= k < entries.len() implies !(#[trigger] entries[k]).contains(
            0u8,
        ) by {
            assert(entries.contains(entries[k]));
            let i = choose|i: int| 0 <= i < strs.len() && strs[i] == entries[k];
            assert(!strs[i].contains(0u8));
        }
        lemma_count_zero_joined(entries, entries.len() as int);
    }
}

/// Where no zero byte lies in `s`, the zero-terminated run at the position
/// of `s` in `before + s + [0] + after` is `s`.
pub proof fn lemma_run_in_the_middle(before: Seq<u8>, s: Seq<u8>, after: Seq<u8>)
    requires
        !s.contains(0u8),
    ensures
        run_at(before + s + seq![0u8] + after, before.len() as int) == Some(s),
{
    let all = before + s + seq![0u8] + after;
    let start = before.len() as int;
    let end = start + s.len();
    assert(all[end] == 0);
    assert forall|i: int| start <= i < end implies all[i] != 0 by {
        assert(all[i] == s[i - start]);
    }
    lemma_index_from_is(all, 0u8, start, end);
    assert(all.subrange(start, end) =~= s);
}

/// Every interned string is found again at its offset: where no string
/// holds a zero byte, the zero-terminated run at the pool offset of string
/// `i` is string `i`.
pub proof fn lemma_pool_resolves(strs: Seq<Seq<u8>>, i: int)
    requires
        0 <= i < strs.len(),
        forall|j: int| 0 <= j < strs.len() ==> !(#[trigger] strs[j]).contains(0u8),
    ensures
        0 <= pool_offset(strs, i) < pool_bytes(strs).len(),
        run_at(pool_bytes(strs), pool_offset(strs, i)) == Some(strs[i]),
{
    let entries = distinct(strs, strs.len() as int);
    lemma_distinct(strs, 0, strs.len() as int);
    lemma_entry_resolves(entries, strs[i]);
}

/// The zero-terminated run at the offset of an entry is the entry, where
/// the entry holds no zero byte.
pub proof fn lemma_entry_resolves(entries: Seq<Seq<u8>>, s: Seq<u8>)
    requires
        entries.contains(s),
        !s.contains(0u8),
    ensures
        0 <= offset_in(entries, s) < joined(entries, entries.len() as int).len(),
        run_at(joined(entries, entries.len() as int), offset_in(entries, s)) == Some(s),
{
    lemma_position_bounds(entries, s, 0);
    let at = position(entries, s, 0);
    if at >= entries.len() {
        let j = choose|j: int| 0 <= j < entries.len() && entries[j] == s;
        assert(false);
    }
    let n = entries.len() as int;
    let pool = joined(entries, n);
    let before = joined(entries, at);
    let through = joined(entries, at + 1);
    lemma_joined_monotone(entries, at + 1, n);
    assert(through == before + s + seq![0u8]);
    let after = pool.skip(through.len() as int);
    assert(pool =~= pool.take(through.len() as int) + after);
    assert(pool == before + s + seq![0u8] + after);
    lemma_run_in_the_middle(before, s, after);
}

} // verus!

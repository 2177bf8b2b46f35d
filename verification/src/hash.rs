use crate::pool::lossy_string;
use crate::pool::text_of;
use crate::text::split;
use crate::text::split_bytes;
use std::collections::HashMap;
use vstd::prelude::*;
use vstd::string::StringSliceAdditionalSpecFns;

verus! {

broadcast use vstd::std_specs::hash::group_hash_axioms;

/// The hash of a byte string: starting from zero, each byte is added to
/// thirty-one times the running value, with wrap-around at 32 bits.
pub open spec fn hash_of(bytes: Seq<u8>) -> u32
    decreases bytes.len(),
{
    if bytes.len() == 0 {
        0u32
    } else {
        ((bytes.last() as int + hash_of(bytes.drop_last()) as int * 31) % 0x1_0000_0000) as u32
    }
}

/// Hashes the bytes of a field name.
pub fn hash_bytes(bytes: &[u8]) -> (hash: u32)
    ensures
        hash == hash_of(bytes@),
{
    let mut output: u32 = 0;
    let mut i: usize = 0;
    while i < bytes.len()
        invariant
            i <= bytes.len(),
            output == hash_of(bytes@.take(i as int)),
        decreases bytes.len() - i,
    {
        proof {
            assert(bytes@.take(i + 1).drop_last() =~= bytes@.take(i as int));
        }
        output = (bytes[i] as u32).wrapping_add(output.wrapping_mul(0x1F));
        i += 1;
    }
    proof {
        assert(bytes@.take(i as int) =~= bytes@);
    }
    output
}

/// Hashes a field name.
pub fn calchash(text: &str) -> (hash: u32)
    ensures
        hash == hash_of(text.spec_bytes()),
{
    hash_bytes(text.as_bytes())
}

/// The names that the first `n` lines of a lookup text give: every line
/// that does not begin with `#` is a name, found under its hash; of two
/// names with one hash the later stays.
pub open spec fn names_of(lines: Seq<Seq<u8>>, n: int) -> Map<u32, Seq<char>>
    decreases n,
{
    if n <= 0 {
        Map::empty()
    } else if lines[n - 1].len() > 0 && lines[n - 1][0] == 35 {
        names_of(lines, n - 1)
    } else {
        names_of(lines, n - 1).insert(hash_of(lines[n - 1]), text_of(lines[n - 1]))
    }
}

/// The map holds exactly the given names.
pub open spec fn holds_names(map: Map<u32, String>, names: Map<u32, Seq<char>>) -> bool {
    &&& forall|h: u32| map.contains_key(h) <==> names.contains_key(h)
    &&& forall|h: u32| map.contains_key(h) ==> (#[trigger] map[h])@ == names[h]
}

/// Builds the lookup table from hash to name out of a text with one name on
/// each line; lines that begin with `#` are comments.
pub fn read_hashes(text: &str) -> (result: HashMap<u32, String>)
    ensures
        holds_names(
            result@,
            names_of(split(text.spec_bytes(), 10u8), split(text.spec_bytes(), 10u8).len() as int),
        ),
{
    let lines = split_bytes(text.as_bytes(), 10);
    let ghost parts = split(text.spec_bytes(), 10u8);
    let mut result: HashMap<u32, String> = HashMap::new();
    let mut k: usize = 0;
    while k < lines.len()
        invariant
            k <= lines.len(),
            lines@.map_values(|l: Vec<u8>| l@) == parts,
            holds_names(result@, names_of(parts, k as int)),
        decreases lines.len() - k,
    {
        let line = lines[k].as_slice();
        assert(parts[k as int] == lines@[k as int]@);
        if !(line.len() > 0 && line[0] == 35) {
            let hash = hash_bytes(line);
            let name = lossy_string(line);
            result.insert(hash, name);
        }
        k += 1;
    }
    result
}

} // verus!

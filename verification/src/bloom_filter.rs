//! A bloom filter: a fixed bit table into which each value sets one bit per
//! salt, and a membership test that can err only towards "present".

use vstd::prelude::*;

verus! {

pub const SALTS: [u32; 64] = [
    0x1953c322,
    0x588ccf17,
    0x64bf600c,
    0xa6be3f3d,
    0x341a02ea,
    0x15b03217,
    0x3b062858,
    0x5956fd06,
    0x18b5624f,
    0xe3be0b46,
    0x20ffcd5c,
    0xa35dfd2b,
    0x1fc4a9bf,
    0x57c45d5c,
    0xa8661c4a,
    0x4f1b74d2,
    0x5a6dde13,
    0x3b18dac6,
    0x05a8afbf,
    0xbbda2fe2,
    0xa2520d78,
    0xe7934849,
    0xd541bc75,
    0x09a55b57,
    0x9b345ae2,
    0xfc2d26af,
    0x38679cef,
    0x81bd1e0d,
    0x654681ae,
    0x4b3d87ad,
    0xd5ff10fb,
    0x23b32f67,
    0xafc7e366,
    0xdd955ead,
    0xe7c34b1c,
    0xfeace0a6,
    0xeb16f09d,
    0x3c57a72d,
    0x2c8294c5,
    0xba92662a,
    0xcd5b2d14,
    0x743936c8,
    0x2489beff,
    0xc6c56e00,
    0x74a4f606,
    0xb244a94a,
    0x5edfc423,
    0xf1901934,
    0x24af7691,
    0xf6c98b25,
    0xea25af46,
    0x76d5f2e6,
    0x5e33cdf2,
    0x445eb357,
    0x88556bd2,
    0x70d1da7a,
    0x54449368,
    0x381020bc,
    0x1c0520bf,
    0xf7e44942,
    0xa27e2a58,
    0x66866fc5,
    0x12519ce7,
    0x437a8456,
];

/// A bloom filter over a table of `table_size` bits, using the first
/// `num_functions` salts.
pub struct BloomFilter<T, F: Fn(T) -> u32> {
    pub hash_func: F,
    pub table: Vec<u8>,
    pub table_size: u32,
    pub num_functions: u32,
    pub value_marker: core::marker::PhantomData<T>,
}

/// Whether bit `idx` of the packed table is set.
pub open spec fn bit_of(table: Seq<u8>, idx: int) -> bool {
    table[idx / 8] & (1u8 << ((idx % 8) as u8)) != 0
}

/// The bit a value with hash `h` sets for salt number `i`.
pub open spec fn bit_target(h: u32, i: int, table_size: u32) -> int {
    ((h ^ SALTS@[i]) as int) % (table_size as int)
}

impl<T, F: Fn(T) -> u32> BloomFilter<T, F> {
    /// The packed table has a byte for every eight bits, the table is not
    /// empty, and no more salts are used than exist.
    pub open spec fn wf(self) -> bool {
        &&& self.table@.len() == ((self.table_size + 7) / 8) as int
        &&& self.table_size >= 1
        &&& self.num_functions <= 64
    }
}

/// Setting one bit in a byte leaves exactly the other bits as they were.
proof fn lemma_or_bit(b: u8, k: u8, j: u8)
    requires
        k < 8,
        j < 8,
    ensures
        ((b | (1u8 << k)) & (1u8 << j) != 0) <==> (b & (1u8 << j) != 0 || j == k),
{
    assert(((b | (1u8 << k)) & (1u8 << j) != 0) <==> (b & (1u8 << j) != 0 || j == k))
        by (bit_vector)
        requires
            k < 8,
            j < 8,
    ;
}

/// A bit of a byte-wise `or` is the `or` of the two bits, and likewise for
/// `and`.
proof fn lemma_combine_bits(a: u8, b: u8, j: u8)
    requires
        j < 8,
    ensures
        ((a | b) & (1u8 << j) != 0) <==> (a & (1u8 << j) != 0 || b & (1u8 << j) != 0),
        ((a & b) & (1u8 << j) != 0) <==> (a & (1u8 << j) != 0 && b & (1u8 << j) != 0),
{
    assert(((a | b) & (1u8 << j) != 0) <==> (a & (1u8 << j) != 0 || b & (1u8 << j) != 0))
        by (bit_vector)
        requires
            j < 8,
    ;
    assert(((a & b) & (1u8 << j) != 0) <==> (a & (1u8 << j) != 0 && b & (1u8 << j) != 0))
        by (bit_vector)
        requires
            j < 8,
    ;
}

/// Creates a filter of `table_size` bits, all clear, or nothing when more
/// salts are asked for than exist.
pub fn bloom_filter_new<T, F: Fn(T) -> u32>(
    table_size: u32,
    hash_func: F,
    num_functions: u32,
) -> (r: Option<BloomFilter<T, F>>)
    ensures
        r is Some <==> num_functions <= 64,
        r matches Some(bf) ==> bf.table_size == table_size && bf.num_functions == num_functions
            && bf.hash_func == hash_func && (table_size >= 1 ==> bf.wf()) && forall|idx: int|
            0 <= idx < bf.table@.len() * 8 ==> !bit_of(bf.table@, idx),
{
    if num_functions > 64 {
        return None;
    }
    let bytes = table_size / 8 + if table_size % 8 != 0 {
        1
    } else {
        0
    };
    proof {
        assert(bytes == ((table_size + 7) / 8) as int);
    }
    let mut table: Vec<u8> = Vec::new();
    let mut i: u32 = 0;
    while i < bytes
        invariant
            i <= bytes,
            table@.len() == i,
            forall|k: int| 0 <= k < i ==> table@[k] == 0u8,
        decreases bytes - i,
    {
        table.push(0);
        i = i + 1;
    }
    proof {
        assert forall|idx: int| 0 <= idx < table@.len() * 8 implies !bit_of(table@, idx) by {
            assert(table@[idx / 8] == 0u8);
            let j = (idx % 8) as u8;
            assert(0u8 & (1u8 << j) == 0) by (bit_vector);
        }
    }
    Some(BloomFilter { hash_func, table, table_size, num_functions, value_marker: core::marker::PhantomData })
}

/// Records `value` in the filter: for each salt in use, the bit its hash
/// points at is set; every other bit is left alone.
pub fn bloom_filter_insert<T, F: Fn(T) -> u32>(bloomfilter: &mut BloomFilter<T, F>, value: T)
    requires
        old(bloomfilter).wf(),
        call_requires(old(bloomfilter).hash_func, (value,)),
    ensures
        final (bloomfilter).wf(),
        final (bloomfilter).hash_func == old(bloomfilter).hash_func,
        final (bloomfilter).table_size == old(bloomfilter).table_size,
        final (bloomfilter).num_functions == old(bloomfilter).num_functions,
        exists|h: u32|
            #[trigger] call_ensures(old(bloomfilter).hash_func, (value,), h) && forall|idx: int|
                0 <= idx < final (bloomfilter).table@.len() * 8 ==> (bit_of(
                    final (bloomfilter).table@,
                    idx,
                ) <==> (bit_of(old(bloomfilter).table@, idx) || exists|i: int|
                    0 <= i < old(bloomfilter).num_functions && idx == bit_target(
                        h,
                        i,
                        old(bloomfilter).table_size,
                    ))),
{
    let ghost gvalue = value;
    let hash = (bloomfilter.hash_func)(value);
    let mut i: u32 = 0;
    while i < bloomfilter.num_functions
        invariant
            call_ensures(old(bloomfilter).hash_func, (value,), hash),
            old(bloomfilter).wf(),
            bloomfilter.wf(),
            i <= bloomfilter.num_functions,
            bloomfilter.hash_func == old(bloomfilter).hash_func,
            bloomfilter.table_size == old(bloomfilter).table_size,
            bloomfilter.num_functions == old(bloomfilter).num_functions,
            bloomfilter.table@.len() == old(bloomfilter).table@.len(),
            forall|idx: int|
                0 <= idx < bloomfilter.table@.len() * 8 ==> (bit_of(bloomfilter.table@, idx) <==> (
                bit_of(old(bloomfilter).table@, idx) || exists|j: int|
                    0 <= j < i && idx == bit_target(hash, j, bloomfilter.table_size))),
        decreases bloomfilter.num_functions - i,
    {
        let subhash = hash ^ SALTS[i as usize];
        let index = subhash % bloomfilter.table_size;
        let byte_index = (index / 8) as usize;
        let bit: u8 = 1u8 << ((index % 8) as u8);
        let ghost pre = bloomfilter.table@;
        proof {
            assert(byte_index < bloomfilter.table@.len());
        }
        let b = bloomfilter.table[byte_index];
        bloomfilter.table.set(byte_index, b | bit);
        proof {
            let tgt = bit_target(hash, i as int, bloomfilter.table_size);
            assert(tgt == index as int);
            assert forall|idx: int| 0 <= idx < bloomfilter.table@.len() * 8 implies (bit_of(
                bloomfilter.table@,
                idx,
            ) <==> (bit_of(pre, idx) || idx == bit_target(
                hash,
                i as int,
                bloomfilter.table_size,
            ))) by {
                let j = (idx % 8) as u8;
                assert(j < 8) by {
                    assert(0 <= idx % 8 < 8);
                }
                if idx / 8 == byte_index {
                    lemma_or_bit(b, (index % 8) as u8, j);
                    assert(idx == idx / 8 * 8 + idx % 8);
                    assert(tgt == byte_index * 8 + (index % 8));
                } else {
                    assert(bloomfilter.table@[idx / 8] == pre[idx / 8]);
                    assert(idx != tgt);
                }
            }
            assert forall|idx: int| 0 <= idx < bloomfilter.table@.len() * 8 implies (bit_of(
                bloomfilter.table@,
                idx,
            ) <==> (bit_of(old(bloomfilter).table@, idx) || exists|j: int|
                0 <= j < i + 1 && idx == bit_target(hash, j, bloomfilter.table_size))) by {
                assert(bit_of(bloomfilter.table@, idx) <==> (bit_of(pre, idx) || idx == tgt));
                if bit_of(bloomfilter.table@, idx) {
                    if !bit_of(pre, idx) {
                        assert(idx == bit_target(hash, i as int, bloomfilter.table_size));
                    }
                } else {
                    assert(!bit_of(pre, idx) && idx != tgt);
                }
            }
        }
        i = i + 1;
    }
}

/// Tests whether `value` may have been recorded: 1 when every bit its hash
/// points at is set, 0 when at least one is clear.  A 0 is definite; a 1
/// may be a collision of other values' bits.
pub fn bloom_filter_query<T, F: Fn(T) -> u32>(bloomfilter: &BloomFilter<T, F>, value: T) -> (r: i32)
    requires
        bloomfilter.wf(),
        call_requires(bloomfilter.hash_func, (value,)),
    ensures
        r == 0 || r == 1,
        exists|h: u32|
            #[trigger] call_ensures(bloomfilter.hash_func, (value,), h) && (r == 1 <==> forall|
                i: int,
            |
                0 <= i < bloomfilter.num_functions ==> bit_of(
                    bloomfilter.table@,
                    bit_target(h, i, bloomfilter.table_size),
                )),
{
    let ghost gvalue = value;
    let hash = (bloomfilter.hash_func)(value);
    let mut i: u32 = 0;
    while i < bloomfilter.num_functions
        invariant
            call_ensures(bloomfilter.hash_func, (value,), hash),
            bloomfilter.wf(),
            i <= bloomfilter.num_functions,
            forall|j: int|
                0 <= j < i ==> bit_of(
                    bloomfilter.table@,
                    bit_target(hash, j, bloomfilter.table_size),
                ),
        decreases bloomfilter.num_functions - i,
    {
        let subhash = hash ^ SALTS[i as usize];
        let index = subhash % bloomfilter.table_size;
        let b = bloomfilter.table[(index / 8) as usize];
        let bit: u8 = 1u8 << ((index % 8) as u8);
        if b & bit == 0 {
            proof {
                assert(!bit_of(
                    bloomfilter.table@,
                    bit_target(hash, i as int, bloomfilter.table_size),
                ));
                assert(exists|ii: int|
                    0 <= ii < bloomfilter.num_functions && !bit_of(
                        bloomfilter.table@,
                        #[trigger] bit_target(hash, ii, bloomfilter.table_size),
                    ));
                assert(call_ensures(bloomfilter.hash_func, (value,), hash) && !(forall|ii: int|
                    0 <= ii < bloomfilter.num_functions ==> bit_of(
                        bloomfilter.table@,
                        bit_target(hash, ii, bloomfilter.table_size),
                    )));
            }
            return 0;
        }
        i = i + 1;
    }
    1
}

/// Clears the filter's table storage.
pub fn bloom_filter_free<T, F: Fn(T) -> u32>(bloomfilter: &mut BloomFilter<T, F>)
    ensures
        final (bloomfilter).table@.len() == 0,
{
    bloomfilter.table.clear();
}

/// Copies the filter's packed table into `array`, which must have room.
pub fn bloom_filter_read<T, F: Fn(T) -> u32>(bloomfilter: &BloomFilter<T, F>, array: &mut Vec<u8>)
    requires
        bloomfilter.wf(),
        old(array)@.len() >= bloomfilter.table@.len(),
    ensures
        final (array)@.len() == old(array)@.len(),
        forall|k: int|
            0 <= k < bloomfilter.table@.len() ==> final (array)@[k] == bloomfilter.table@[k],
        forall|k: int|
            bloomfilter.table@.len() <= k < old(array)@.len() ==> final (array)@[k] == old(
                array,
            )@[k],
{
    let mut k: usize = 0;
    while k < bloomfilter.table.len()
        invariant
            array@.len() == old(array)@.len(),
            old(array)@.len() >= bloomfilter.table@.len(),
            k <= bloomfilter.table@.len(),
            forall|j: int| 0 <= j < k ==> array@[j] == bloomfilter.table@[j],
            forall|j: int|
                k <= j < old(array)@.len() ==> array@[j] == old(array)@[j],
        decreases bloomfilter.table@.len() - k,
    {
        let v = bloomfilter.table[k];
        array.set(k, v);
        k = k + 1;
    }
}

/// Overwrites the filter's packed table from `array`, which must hold at
/// least a full table.
pub fn bloom_filter_load<T, F: Fn(T) -> u32>(bloomfilter: &mut BloomFilter<T, F>, array: &Vec<u8>)
    requires
        old(bloomfilter).wf(),
        array@.len() >= old(bloomfilter).table@.len(),
    ensures
        final (bloomfilter).wf(),
        final (bloomfilter).hash_func == old(bloomfilter).hash_func,
        final (bloomfilter).table_size == old(bloomfilter).table_size,
        final (bloomfilter).num_functions == old(bloomfilter).num_functions,
        final (bloomfilter).table@.len() == old(bloomfilter).table@.len(),
        forall|k: int|
            0 <= k < final (bloomfilter).table@.len() ==> final (bloomfilter).table@[k]
                == array@[k],
{
    let mut k: usize = 0;
    while k < bloomfilter.table.len()
        invariant
            old(bloomfilter).wf(),
            bloomfilter.wf(),
            bloomfilter.hash_func == old(bloomfilter).hash_func,
            bloomfilter.table_size == old(bloomfilter).table_size,
            bloomfilter.num_functions == old(bloomfilter).num_functions,
            bloomfilter.table@.len() == old(bloomfilter).table@.len(),
            array@.len() >= bloomfilter.table@.len(),
            k <= bloomfilter.table@.len(),
            forall|j: int| 0 <= j < k ==> bloomfilter.table@[j] == array@[j],
        decreases bloomfilter.table@.len() - k,
    {
        let v = array[k];
        bloomfilter.table.set(k, v);
        k = k + 1;
    }
}

/// The union of two filters of one shape: a bit is set in the result
/// exactly when it is set in either; filters of different shapes cannot be
/// joined.
pub fn bloom_filter_union<T, F: Fn(T) -> u32 + Clone>(
    filter1: &BloomFilter<T, F>,
    filter2: &BloomFilter<T, F>,
) -> (r: Option<BloomFilter<T, F>>)
    requires
        filter1.wf(),
        filter2.wf(),
        filter1.hash_func == filter2.hash_func,
    ensures
        r is Some <==> filter1.table_size == filter2.table_size && filter1.num_functions
            == filter2.num_functions,
        r matches Some(bf) ==> bf.wf() && bf.table_size == filter1.table_size && bf.num_functions
            == filter1.num_functions && bf.table@.len() == filter1.table@.len() && forall|idx: int|
            0 <= idx < bf.table@.len() * 8 ==> (bit_of(bf.table@, idx) <==> (bit_of(
                filter1.table@,
                idx,
            ) || bit_of(filter2.table@, idx))),
{
    if filter1.table_size != filter2.table_size || filter1.num_functions != filter2.num_functions {
        return None;
    }
    let mut table: Vec<u8> = Vec::new();
    let mut k: usize = 0;
    while k < filter1.table.len()
        invariant
            filter1.wf(),
            filter2.wf(),
            filter1.table_size == filter2.table_size,
            k <= filter1.table@.len(),
            table@.len() == k,
            forall|j: int| 0 <= j < k ==> table@[j] == (filter1.table@[j] | filter2.table@[j]),
        decreases filter1.table@.len() - k,
    {
        table.push(filter1.table[k] | filter2.table[k]);
        k = k + 1;
    }
    proof {
        assert forall|idx: int| 0 <= idx < table@.len() * 8 implies (bit_of(table@, idx) <==> (
        bit_of(filter1.table@, idx) || bit_of(filter2.table@, idx))) by {
            let j = (idx % 8) as u8;
            lemma_combine_bits(filter1.table@[idx / 8], filter2.table@[idx / 8], j);
        }
    }
    Some(
        BloomFilter {
            hash_func: filter1.hash_func.clone(),
            table,
            table_size: filter1.table_size,
            num_functions: filter1.num_functions,
            value_marker: core::marker::PhantomData,
        },
    )
}

/// The intersection of two filters of one shape: a bit is set in the
/// result exactly when it is set in both.
pub fn bloom_filter_intersection<T, F: Fn(T) -> u32 + Clone>(
    filter1: &BloomFilter<T, F>,
    filter2: &BloomFilter<T, F>,
) -> (r: Option<BloomFilter<T, F>>)
    requires
        filter1.wf(),
        filter2.wf(),
        filter1.hash_func == filter2.hash_func,
    ensures
        r is Some <==> filter1.table_size == filter2.table_size && filter1.num_functions
            == filter2.num_functions,
        r matches Some(bf) ==> bf.wf() && bf.table_size == filter1.table_size && bf.num_functions
            == filter1.num_functions && bf.table@.len() == filter1.table@.len() && forall|idx: int|
            0 <= idx < bf.table@.len() * 8 ==> (bit_of(bf.table@, idx) <==> (bit_of(
                filter1.table@,
                idx,
            ) && bit_of(filter2.table@, idx))),
{
    if filter1.table_size != filter2.table_size || filter1.num_functions != filter2.num_functions {
        return None;
    }
    let mut table: Vec<u8> = Vec::new();
    let mut k: usize = 0;
    while k < filter1.table.len()
        invariant
            filter1.wf(),
            filter2.wf(),
            filter1.table_size == filter2.table_size,
            k <= filter1.table@.len(),
            table@.len() == k,
            forall|j: int| 0 <= j < k ==> table@[j] == (filter1.table@[j] & filter2.table@[j]),
        decreases filter1.table@.len() - k,
    {
        table.push(filter1.table[k] & filter2.table[k]);
        k = k + 1;
    }
    proof {
        assert forall|idx: int| 0 <= idx < table@.len() * 8 implies (bit_of(table@, idx) <==> (
        bit_of(filter1.table@, idx) && bit_of(filter2.table@, idx))) by {
            let j = (idx % 8) as u8;
            lemma_combine_bits(filter1.table@[idx / 8], filter2.table@[idx / 8], j);
        }
    }
    Some(
        BloomFilter {
            hash_func: filter1.hash_func.clone(),
            table,
            table_size: filter1.table_size,
            num_functions: filter1.num_functions,
            value_marker: core::marker::PhantomData,
        },
    )
}

} // verus!

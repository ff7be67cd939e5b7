//! The key lookup index of a domain: a string pool of the keys and an
//! open-addressing hash table from key to node number.
//!
//! Layout: key count and seed (little-endian `u64`), the string pool size
//! (little-endian `u32`), 12 zero bytes, the pool (a zero byte, then each
//! key's UTF-8 bytes followed by a zero byte), then one 8-byte slot per key
//! count: the pool offset of the key (0 for an empty slot) and its node
//! number, both little-endian `u32`.
use vstd::prelude::*;
use vstd::utf8::{encode_scalar, encode_utf8, char_is_scalar, has_width_1_encoding, has_width_2_encoding, has_width_3_encoding};
use crate::generate::{le_bytes, push_le};

verus! {

pub const INDEX_SEED: u64 = 0x1234567890ABCDEF;

pub const HASH_PRIME: u64 = 1099511628211;

// ---------------------------------------------------------------------------
// UTF-8
// ---------------------------------------------------------------------------

/// Appends the UTF-8 encoding of `c`.
pub fn push_utf8(out: &mut Vec<u8>, c: char)
    ensures
        final(out)@ == old(out)@ + encode_scalar(c as u32),
{
    proof {
        char_is_scalar(c);
    }
    let v = c as u32;
    let ghost start = out@;
    if v <= 0x7F {
        out.push((v & 0x7F) as u8);
    } else if v <= 0x7FF {
        out.push(0xC0u8 | ((v >> 6) & 0x1F) as u8);
        out.push(0x80u8 | (v & 0x3F) as u8);
    } else if v <= 0xFFFF {
        out.push(0xE0u8 | ((v >> 12) & 0x0F) as u8);
        out.push(0x80u8 | ((v >> 6) & 0x3F) as u8);
        out.push(0x80u8 | (v & 0x3F) as u8);
    } else {
        out.push(0xF0u8 | ((v >> 18) & 0x7) as u8);
        out.push(0x80u8 | ((v >> 12) & 0x3F) as u8);
        out.push(0x80u8 | ((v >> 6) & 0x3F) as u8);
        out.push(0x80u8 | (v & 0x3F) as u8);
    }
    assert(out@ =~= start + encode_scalar(v));
}

pub proof fn lemma_encode_push(s: Seq<char>, c: char)
    ensures
        encode_utf8(s.push(c)) == encode_utf8(s) + encode_scalar(c as u32),
    decreases s.len(),
{
    if s.len() == 0 {
        assert(s.push(c).drop_first() =~= Seq::<char>::empty());
        assert(encode_utf8(Seq::<char>::empty()) =~= Seq::<u8>::empty());
        assert(encode_utf8(s.push(c)) =~= encode_scalar(c as u32) + Seq::<u8>::empty());
        assert(encode_utf8(s) + encode_scalar(c as u32) =~= encode_scalar(c as u32));
    } else {
        lemma_encode_push(s.drop_first(), c);
        assert(s.push(c).drop_first() =~= s.drop_first().push(c));
        assert(s.push(c)[0] == s[0]);
        assert(encode_utf8(s.push(c)) =~= encode_scalar(s[0] as u32) + (encode_utf8(s.drop_first())
            + encode_scalar(c as u32)));
    }
}

/// The UTF-8 bytes of a key.
pub fn utf8_of(cs: &[char]) -> (r: Vec<u8>)
    ensures
        r@ == encode_utf8(cs@),
{
    let mut r: Vec<u8> = Vec::new();
    let mut i: usize = 0;
    assert(encode_utf8(cs@.take(0)) =~= Seq::<u8>::empty());
    while i < cs.len()
        invariant
            i <= cs.len(),
            r@ == encode_utf8(cs@.take(i as int)),
        decreases cs.len() - i,
    {
        proof {
            lemma_encode_push(cs@.take(i as int), cs@[i as int]);
            assert(cs@.take(i + 1) =~= cs@.take(i as int).push(cs@[i as int]));
        }
        push_utf8(&mut r, cs[i]);
        i = i + 1;
    }
    assert(cs@.take(cs.len() as int) =~= cs@);
    r
}

// ---------------------------------------------------------------------------
// Hash, pool and table
// ---------------------------------------------------------------------------

/// The key hash: from the seed, per byte `h = (h ^ b) * prime` (mod 2^64).
pub open spec fn key_hash(bytes: Seq<u8>) -> u64
    decreases bytes.len(),
{
    if bytes.len() == 0 {
        INDEX_SEED
    } else {
        (key_hash(bytes.drop_last()) ^ (bytes.last() as u64)).wrapping_mul(HASH_PRIME)
    }
}

/// The number of table slots for `n` keys: one and a half per key, at
/// least 16.
pub open spec fn slot_count(n: int) -> int {
    if n * 3 / 2 < 16 {
        16
    } else {
        n * 3 / 2
    }
}

/// The string pool: a zero byte, then each key's bytes and a zero byte.
pub open spec fn pool_of(keys: Seq<Seq<char>>) -> Seq<u8>
    decreases keys.len(),
{
    if keys.len() == 0 {
        seq![0u8]
    } else {
        pool_of(keys.drop_last()) + encode_utf8(keys.last()) + seq![0u8]
    }
}

/// The first free slot from `s` on, wrapping around, within `fuel` steps
/// (`-1` when there is none).
pub open spec fn probe(t: Seq<(u32, u32)>, s: int, fuel: nat) -> int
    decreases fuel,
{
    if fuel == 0 || !(0 <= s < t.len()) {
        -1
    } else if t[s].0 == 0 {
        s
    } else {
        probe(t, (s + 1) % (t.len() as int), (fuel - 1) as nat)
    }
}

/// The table after inserting keys `0 .. i`: key `j` goes to the first free
/// slot from its hash, holding its pool offset and node number `j`.
pub open spec fn table_of(keys: Seq<Seq<char>>, i: int) -> Seq<(u32, u32)>
    decreases i,
{
    let kc = slot_count(keys.len() as int);
    if i <= 0 {
        Seq::new(kc as nat, |q: int| (0u32, 0u32))
    } else {
        let t = table_of(keys, i - 1);
        let h = key_hash(encode_utf8(keys[i - 1]));
        let s = probe(t, (h % (kc as u64)) as int, kc as nat);
        t.update(s, (pool_of(keys.take(i - 1)).len() as u32, (i - 1) as u32))
    }
}

pub open spec fn table_bytes(t: Seq<(u32, u32)>) -> Seq<u8>
    decreases t.len(),
{
    if t.len() == 0 {
        seq![]
    } else {
        table_bytes(t.drop_last()) + le_bytes(t.last().0 as nat, 4) + le_bytes(t.last().1 as nat, 4)
    }
}

/// The index of a domain whose keys, in node order, are `keys`.
pub open spec fn index_bytes(keys: Seq<Seq<char>>) -> Seq<u8> {
    let kc = slot_count(keys.len() as int);
    let pool = pool_of(keys);
    le_bytes(kc as nat, 8) + le_bytes(INDEX_SEED as nat, 8) + le_bytes(pool.len(), 4) + Seq::new(
        12,
        |i: int| 0u8,
    ) + pool + table_bytes(table_of(keys, keys.len() as int))
}

/// The number of occupied slots.
pub open spec fn occupied(t: Seq<(u32, u32)>) -> nat
    decreases t.len(),
{
    if t.len() == 0 {
        0
    } else {
        occupied(t.drop_last()) + if t.last().0 != 0 {
            1nat
        } else {
            0nat
        }
    }
}

proof fn lemma_occupied_update(t: Seq<(u32, u32)>, s: int, e: (u32, u32))
    requires
        0 <= s < t.len(),
        t[s].0 == 0,
        e.0 != 0,
    ensures
        occupied(t.update(s, e)) == occupied(t) + 1,
    decreases t.len(),
{
    let u = t.update(s, e);
    if s == t.len() - 1 {
        assert(u.drop_last() =~= t.drop_last());
    } else {
        lemma_occupied_update(t.drop_last(), s, e);
        assert(u.drop_last() =~= t.drop_last().update(s, e));
    }
}

proof fn lemma_free_slot(t: Seq<(u32, u32)>) -> (z: int)
    requires
        occupied(t) < t.len(),
    ensures
        0 <= z < t.len(),
        t[z].0 == 0,
    decreases t.len(),
{
    if t.last().0 == 0 {
        t.len() - 1
    } else {
        lemma_free_slot(t.drop_last())
    }
}

proof fn lemma_probe_finds(t: Seq<(u32, u32)>, s: int, fuel: nat, d: int)
    requires
        0 <= s < t.len(),
        0 <= d < fuel,
        fuel <= t.len(),
        t[(s + d) % (t.len() as int)].0 == 0,
    ensures
        0 <= probe(t, s, fuel) < t.len(),
        t[probe(t, s, fuel)].0 == 0,
    decreases d,
{
    let l = t.len() as int;
    if t[s].0 != 0 {
        if d == 0 {
            assert((s + 0) % l == s) by {
                vstd::arithmetic::div_mod::lemma_small_mod(s as nat, l as nat);
            }
        } else {
            let s1 = (s + 1) % l;
            assert((s1 + (d - 1)) % l == (s + d) % l) by {
                vstd::arithmetic::div_mod::lemma_small_mod((d - 1) as nat, l as nat);
                vstd::arithmetic::div_mod::lemma_add_mod_noop(s + 1, d - 1, l);
            }
            vstd::arithmetic::div_mod::lemma_mod_bound(s + 1, l);
            lemma_probe_finds(t, s1, (fuel - 1) as nat, d - 1);
        }
    }
}

/// The first free slot from `start` on.
fn find_slot(table: &Vec<(u32, u32)>, start: usize) -> (s: usize)
    requires
        start < table.len(),
        occupied(table@) < table.len(),
    ensures
        s == probe(table@, start as int, table.len() as nat),
        s < table.len(),
        table@[s as int].0 == 0,
{
    let l = table.len();
    let ghost t = table@;
    proof {
        let z = lemma_free_slot(t);
        let d = if z >= start { z - start } else { z - start + l };
        assert((start + d) % (l as int) == z) by {
            if z >= start {
                vstd::arithmetic::div_mod::lemma_small_mod(z as nat, l as nat);
            } else {
                vstd::arithmetic::div_mod::lemma_mod_add_multiples_vanish(z, l as int);
                vstd::arithmetic::div_mod::lemma_small_mod(z as nat, l as nat);
            }
        }
        lemma_probe_finds(t, start as int, l as nat, d);
    }
    let mut slot = start;
    let mut steps: usize = 0;
    while steps < l
        invariant
            t == table@,
            l == table.len(),
            slot < l,
            steps <= l,
            probe(t, start as int, l as nat) == probe(t, slot as int, (l - steps) as nat),
            0 <= probe(t, start as int, l as nat) < l,
        decreases l - steps,
    {
        if table[slot].0 == 0 {
            return slot;
        }
        slot = (slot + 1) % l;
        steps = steps + 1;
    }
    assert(probe(t, slot as int, 0) == -1);
    0
}

/// The string pool and the pool offset of each key.
fn build_pool(keys: &Vec<Vec<char>>) -> (r: (Vec<u8>, Vec<u32>))
    requires
        pool_of(keys@.map_values(|k: Vec<char>| k@)).len() <= u32::MAX,
    ensures
        r.0@ == pool_of(keys@.map_values(|k: Vec<char>| k@)),
        r.1@.len() == keys.len(),
        forall|i: int| 0 <= i < keys.len() ==> #[trigger] r.1@[i] == pool_of(keys@.map_values(|k: Vec<char>| k@).take(i)).len(),
{
    let ghost kv = keys@.map_values(|k: Vec<char>| k@);
    let mut pool: Vec<u8> = Vec::new();
    pool.push(0);
    let mut offs: Vec<u32> = Vec::new();
    let mut i: usize = 0;
    assert(kv.take(0) =~= Seq::<Seq<char>>::empty());
    while i < keys.len()
        invariant
            i <= keys.len(),
            kv == keys@.map_values(|k: Vec<char>| k@),
            pool_of(kv).len() <= u32::MAX,
            pool@ == pool_of(kv.take(i as int)),
            offs@.len() == i,
            forall|q: int| 0 <= q < i ==> #[trigger] offs@[q] == pool_of(kv.take(q)).len(),
        decreases keys.len() - i,
    {
        proof {
            lemma_pool_prefix(kv, i as int);
        }
        offs.push(pool.len() as u32);
        let bytes = utf8_of(keys[i].as_slice());
        let mut j: usize = 0;
        let ghost before = pool@;
        while j < bytes.len()
            invariant
                j <= bytes.len(),
                pool@ == before + bytes@.take(j as int),
            decreases bytes.len() - j,
        {
            pool.push(bytes[j]);
            j = j + 1;
            assert(pool@ =~= before + bytes@.take(j as int));
        }
        pool.push(0);
        assert(kv.take(i + 1).drop_last() =~= kv.take(i as int));
        assert(bytes@.take(bytes.len() as int) =~= bytes@);
        assert(pool@ =~= pool_of(kv.take(i + 1)));
        i = i + 1;
    }
    assert(kv.take(keys.len() as int) =~= kv);
    (pool, offs)
}

proof fn lemma_pool_prefix(keys: Seq<Seq<char>>, i: int)
    requires
        0 <= i <= keys.len(),
    ensures
        pool_of(keys.take(i)).len() <= pool_of(keys).len(),
        i < keys.len() ==> pool_of(keys.take(i)).len() < pool_of(keys).len(),
        pool_of(keys.take(i)).len() >= 1,
    decreases keys.len() - i,
{
    if i < keys.len() {
        lemma_pool_prefix(keys, i + 1);
        assert(keys.take(i + 1).drop_last() =~= keys.take(i));
    } else {
        assert(keys.take(i) =~= keys);
    }
    lemma_pool_nonempty(keys.take(i));
}

proof fn lemma_pool_nonempty(keys: Seq<Seq<char>>)
    ensures
        pool_of(keys).len() >= 1,
    decreases keys.len(),
{
    if keys.len() > 0 {
        lemma_pool_nonempty(keys.drop_last());
    }
}

fn hash_bytes(bytes: &Vec<u8>) -> (h: u64)
    ensures
        h == key_hash(bytes@),
{
    let mut h: u64 = INDEX_SEED;
    let mut i: usize = 0;
    assert(bytes@.take(0) =~= Seq::<u8>::empty());
    while i < bytes.len()
        invariant
            i <= bytes.len(),
            h == key_hash(bytes@.take(i as int)),
        decreases bytes.len() - i,
    {
        assert(bytes@.take(i + 1).drop_last() =~= bytes@.take(i as int));
        h = (h ^ (bytes[i] as u64)).wrapping_mul(HASH_PRIME);
        i = i + 1;
    }
    assert(bytes@.take(bytes.len() as int) =~= bytes@);
    h
}

/// Builds the lookup index of a domain whose keys, in node order, are
/// `keys`.
pub fn domain_index(keys: &Vec<Vec<char>>) -> (r: Vec<u8>)
    requires
        pool_of(keys@.map_values(|k: Vec<char>| k@)).len() <= u32::MAX,
        keys.len() <= u32::MAX,
        keys.len() * 3 <= usize::MAX,
    ensures
        r@ == index_bytes(keys@.map_values(|k: Vec<char>| k@)),
{
    let ghost kv = keys@.map_values(|k: Vec<char>| k@);
    let n = keys.len();
    let kc: usize = if n * 3 / 2 < 16 { 16 } else { n * 3 / 2 };
    assert(kc == slot_count(n as int));
    let (pool, offs) = build_pool(keys);
    let mut table: Vec<(u32, u32)> = Vec::new();
    let mut q: usize = 0;
    while q < kc
        invariant
            q <= kc,
            table@ == Seq::new(q as nat, |x: int| (0u32, 0u32)),
        decreases kc - q,
    {
        table.push((0, 0));
        q = q + 1;
        assert(table@ =~= Seq::new(q as nat, |x: int| (0u32, 0u32)));
    }
    assert(table@ =~= table_of(kv, 0));
    proof {
        assert(occupied(table@) == 0) by {
            lemma_occupied_zero(table@);
        }
    }
    let mut i: usize = 0;
    while i < n
        invariant
            i <= n,
            n == keys.len(),
            n <= u32::MAX,
            kv == keys@.map_values(|k: Vec<char>| k@),
            kc == slot_count(n as int),
            table@ == table_of(kv, i as int),
            table@.len() == kc,
            occupied(table@) == i,
            offs@.len() == n,
            forall|x: int| 0 <= x < n ==> #[trigger] offs@[x] == pool_of(kv.take(x)).len(),
            pool_of(kv).len() <= u32::MAX,
        decreases n - i,
    {
        let bytes = utf8_of(keys[i].as_slice());
        let h = hash_bytes(&bytes);
        proof {
            assert(kc > n) by (nonlinear_arith)
                requires
                    kc == slot_count(n as int),
                    n >= 0,
            ;
            lemma_pool_prefix(kv, i as int);
            assert(bytes@ == encode_utf8(kv[i as int]));
        }
        let start = (h % (kc as u64)) as usize;
        let s = find_slot(&table, start);
        let ghost before = table@;
        table.set(s, (offs[i], i as u32));
        proof {
            lemma_occupied_update(before, s as int, (offs[i as int], i as u32));
        }
        i = i + 1;
    }
    let mut out: Vec<u8> = Vec::new();
    push_le(&mut out, kc as u64, 8);
    push_le(&mut out, INDEX_SEED, 8);
    push_le(&mut out, pool.len() as u64, 4);
    let mut z: usize = 0;
    let ghost head = out@;
    while z < 12
        invariant
            z <= 12,
            out@ == head + Seq::new(z as nat, |j: int| 0u8),
        decreases 12 - z,
    {
        out.push(0);
        z = z + 1;
        assert(out@ =~= head + Seq::new(z as nat, |j: int| 0u8));
    }
    let ghost head2 = out@;
    let mut j: usize = 0;
    while j < pool.len()
        invariant
            j <= pool.len(),
            out@ == head2 + pool@.take(j as int),
        decreases pool.len() - j,
    {
        out.push(pool[j]);
        j = j + 1;
        assert(out@ =~= head2 + pool@.take(j as int));
    }
    assert(pool@.take(pool.len() as int) =~= pool@);
    let ghost head3 = out@;
    let mut k: usize = 0;
    assert(table_bytes(table@.take(0)) =~= Seq::<u8>::empty());
    while k < table.len()
        invariant
            k <= table.len(),
            out@ == head3 + table_bytes(table@.take(k as int)),
        decreases table.len() - k,
    {
        let (a, b) = table[k];
        push_le(&mut out, a as u64, 4);
        push_le(&mut out, b as u64, 4);
        assert(table@.take(k + 1).drop_last() =~= table@.take(k as int));
        k = k + 1;
    }
    assert(table@.take(table.len() as int) =~= table@);
    assert(out@ =~= index_bytes(kv));
    out
}

proof fn lemma_occupied_zero(t: Seq<(u32, u32)>)
    requires
        forall|i: int| 0 <= i < t.len() ==> #[trigger] t[i].0 == 0,
    ensures
        occupied(t) == 0,
    decreases t.len(),
{
    if t.len() > 0 {
        lemma_occupied_zero(t.drop_last());
    }
}

// ---------------------------------------------------------------------------
// Laws
// ---------------------------------------------------------------------------

/// The entry of key `i`: its pool offset and its node number.
pub open spec fn key_entry(keys: Seq<Seq<char>>, i: int) -> (u32, u32) {
    (pool_of(keys.take(i)).len() as u32, i as u32)
}

/// Some slot of `t` holds `e`.
pub open spec fn in_table(t: Seq<(u32, u32)>, e: (u32, u32)) -> bool {
    exists|s: int| 0 <= s < t.len() && t[s] == e
}

proof fn lemma_table_steps(keys: Seq<Seq<char>>, j: int)
    requires
        0 <= j <= keys.len(),
        keys.len() <= u32::MAX,
        pool_of(keys).len() <= u32::MAX,
    ensures
        table_of(keys, j).len() == slot_count(keys.len() as int),
        occupied(table_of(keys, j)) == j,
        forall|i: int| 0 <= i < j ==> #[trigger] in_table(table_of(keys, j), key_entry(keys, i)),
    decreases j,
{
    let kc = slot_count(keys.len() as int);
    if j == 0 {
        lemma_occupied_zero(table_of(keys, 0));
    } else {
        lemma_table_steps(keys, j - 1);
        let t = table_of(keys, j - 1);
        let h = key_hash(encode_utf8(keys[j - 1]));
        let start = (h % (kc as u64)) as int;
        assert(kc > keys.len()) by (nonlinear_arith)
            requires
                kc == slot_count(keys.len() as int),
        ;
        let z = lemma_free_slot(t);
        let d = if z >= start { z - start } else { z - start + kc };
        assert((start + d) % kc == z) by {
            if z >= start {
                vstd::arithmetic::div_mod::lemma_small_mod(z as nat, kc as nat);
            } else {
                vstd::arithmetic::div_mod::lemma_mod_add_multiples_vanish(z, kc);
                vstd::arithmetic::div_mod::lemma_small_mod(z as nat, kc as nat);
            }
        }
        lemma_probe_finds(t, start, kc as nat, d);
        let p = probe(t, start, kc as nat);
        lemma_pool_prefix(keys, j - 1);
        let e = key_entry(keys, j - 1);
        assert(e.0 != 0);
        lemma_occupied_update(t, p, e);
        let t2 = table_of(keys, j);
        assert(t2 == t.update(p, e));
        assert forall|i: int| 0 <= i < j implies #[trigger] in_table(t2, key_entry(keys, i)) by {
            if i == j - 1 {
                assert(t2[p] == e);
            } else {
                assert(in_table(t, key_entry(keys, i)));
                let s = choose|s: int| 0 <= s < t.len() && t[s] == key_entry(keys, i);
                lemma_pool_prefix(keys, i);
                assert(t[s].0 != 0);
                assert(s != p);
                assert(t2[s] == t[s]);
            }
        }
    }
}

/// Every key of a domain is in its index: some slot of the table holds
/// the key's pool offset and its node number.
pub proof fn law_every_key_indexed(keys: Seq<Seq<char>>)
    requires
        keys.len() <= u32::MAX,
        pool_of(keys).len() <= u32::MAX,
    ensures
        forall|i: int|
            0 <= i < keys.len() ==> #[trigger] in_table(table_of(keys, keys.len() as int), key_entry(keys, i)),
{
    lemma_table_steps(keys, keys.len() as int);
}

} // verus!

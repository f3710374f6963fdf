//! Merging mesh vertices that share a grid key: the first vertex of each key
//! is kept, every vertex is sent to the kept one of its key, and triangles
//! are renumbered accordingly.
use vstd::prelude::*;
use std::collections::HashMap;

verus! {

/// Two 64-bit words side by side in one key.
pub open spec fn pair_word(a: u64, b: u64) -> u128 {
    ((a as u128) << 64u128) | (b as u128)
}

proof fn lemma_pair_word_injective(a: u64, b: u64, c: u64, d: u64)
    ensures
        pair_word(a, b) == pair_word(c, d) <==> (a == c && b == d),
{
    assert(((((a as u128) << 64u128) | (b as u128)) >> 64u128) == a as u128
        && ((((a as u128) << 64u128) | (b as u128)) & 0xffff_ffff_ffff_ffffu128) == b as u128) by (bit_vector);
    assert(((((c as u128) << 64u128) | (d as u128)) >> 64u128) == c as u128
        && ((((c as u128) << 64u128) | (d as u128)) & 0xffff_ffff_ffff_ffffu128) == d as u128) by (bit_vector);
}

proof fn lemma_word_of_i64(x: i64, y: i64)
    ensures
        (x as u64) == (y as u64) <==> x == y,
{
    assert((x as u64) == (y as u64) <==> x == y) by (bit_vector);
}

proof fn lemma_word_of_usize(x: usize, y: usize)
    ensures
        (x as u64) == (y as u64) <==> x == y,
{
    assert((x as u64) == (y as u64) <==> x == y) by (bit_vector);
}

/// The key of the first two coordinates of a grid key.
pub open spec fn pair_key(x: i64, y: i64) -> u128 {
    pair_word(x as u64, y as u64)
}

/// The key of a vertex: the number given to its first two coordinates, and
/// its third coordinate.
pub open spec fn vertex_key(pairs: Map<u128, usize>, k: [i64; 3]) -> u128 {
    pair_word(pairs[pair_key(k[0], k[1])] as u64, k[2] as u64)
}

fn word_pair_key(x: i64, y: i64) -> (r: u128)
    ensures
        r == pair_key(x, y),
{
    (((x as u64) as u128) << 64u128) | ((y as u64) as u128)
}

fn word_vertex_key(id: usize, z: i64) -> (r: u128)
    ensures
        r == pair_word(id as u64, z as u64),
{
    (((id as u64) as u128) << 64u128) | ((z as u64) as u128)
}

/// `kept` lists, in increasing order, the positions where a key occurs for
/// the first time, and `remap[i]` is the place in `kept` of the first
/// occurrence of `keys[i]`.
pub open spec fn is_merge(keys: Seq<[i64; 3]>, kept: Seq<usize>, remap: Seq<usize>) -> bool {
    &&& kept.len() <= keys.len()
    &&& remap.len() == keys.len()
    &&& forall|j: int| 0 <= j < kept.len() ==> #[trigger] kept[j] < keys.len()
    &&& forall|a: int, b: int| 0 <= a < b < kept.len() ==> #[trigger] kept[a] < #[trigger] kept[b]
    &&& forall|j: int, t: int| 0 <= j < kept.len() && 0 <= t < kept[j] ==> #[trigger] keys[t] != #[trigger] keys[kept[j] as int]
    &&& forall|i: int| 0 <= i < keys.len() ==> {
        &&& #[trigger] remap[i] < kept.len()
        &&& keys[kept[remap[i] as int] as int] == keys[i]
    }
}

/// What a merge keeps is determined: the kept vertices have distinct keys,
/// and a vertex whose key does not occur before it is kept and sent to
/// itself.
pub proof fn lemma_merge_determined(keys: Seq<[i64; 3]>, kept: Seq<usize>, remap: Seq<usize>)
    requires
        is_merge(keys, kept, remap),
    ensures
        forall|a: int, b: int| 0 <= a < b < kept.len() ==> keys[#[trigger] kept[a] as int] != keys[#[trigger] kept[b] as int],
        forall|i: int| 0 <= i < keys.len() && (forall|t: int| 0 <= t < i ==> keys[t] != keys[i])
            ==> kept[#[trigger] remap[i] as int] == i,
{
    assert forall|i: int| 0 <= i < keys.len() && (forall|t: int| 0 <= t < i ==> keys[t] != keys[i])
        implies kept[#[trigger] remap[i] as int] == i by {
        let j = remap[i] as int;
        if kept[j] < i {
            assert(keys[kept[j] as int] == keys[i]);
        } else if kept[j] > i {
            assert(keys[i] != keys[kept[j] as int]);
        }
    }
}

/// Find the first vertex of each key and where every vertex goes: returns
/// `(kept, remap)` as `is_merge` describes them.
pub fn merge_keys(keys: &[[i64; 3]]) -> (r: (Vec<usize>, Vec<usize>))
    ensures
        is_merge(keys@, r.0@, r.1@),
{
    broadcast use vstd::std_specs::hash::group_hash_axioms;
    let n = keys.len();
    let mut pairs: HashMap<u128, usize> = HashMap::new();
    let mut verts: HashMap<u128, usize> = HashMap::new();
    let mut np: usize = 0;
    let mut kept: Vec<usize> = Vec::new();
    let mut remap: Vec<usize> = Vec::new();
    let mut i: usize = 0;
    while i < n
        invariant
            n == keys@.len(),
            i <= n,
            np <= i,
            remap@.len() == i,
            kept@.len() <= i,
            forall|t: int| 0 <= t < i ==> #[trigger] pairs@.contains_key(pair_key(keys@[t][0], keys@[t][1])),
            forall|k: u128| #[trigger] pairs@.contains_key(k) ==> pairs@[k] < np,
            forall|x1: i64, y1: i64, x2: i64, y2: i64|
                #![trigger pairs@[pair_key(x1, y1)], pairs@[pair_key(x2, y2)]]
                pairs@.contains_key(pair_key(x1, y1)) && pairs@.contains_key(pair_key(x2, y2))
                    && pairs@[pair_key(x1, y1)] == pairs@[pair_key(x2, y2)] ==> x1 == x2 && y1 == y2,
            forall|t: int| 0 <= t < i ==> {
                &&& verts@.contains_key(#[trigger] vertex_key(pairs@, keys@[t]))
                &&& verts@[vertex_key(pairs@, keys@[t])] == remap@[t]
            },
            forall|k: u128| #[trigger] verts@.contains_key(k) ==> exists|t: int| 0 <= t < i && #[trigger] vertex_key(pairs@, keys@[t]) == k,
            forall|j: int| 0 <= j < kept@.len() ==> #[trigger] kept@[j] < i,
            forall|a: int, b: int| 0 <= a < b < kept@.len() ==> #[trigger] kept@[a] < #[trigger] kept@[b],
            forall|j: int, t: int| 0 <= j < kept@.len() && 0 <= t < kept@[j] ==> #[trigger] keys@[t] != #[trigger] keys@[kept@[j] as int],
            forall|t: int| 0 <= t < i ==> {
                &&& #[trigger] remap@[t] < kept@.len()
                &&& keys@[kept@[remap@[t] as int] as int] == keys@[t]
            },
        decreases n - i,
    {
        let k = keys[i];
        let pk = word_pair_key(k[0], k[1]);
        let ghost old_pairs = pairs@;
        let id: usize = match pairs.get(&pk) {
            Some(p) => *p,
            None => {
                let p = np;
                pairs.insert(pk, p);
                np = np + 1;
                proof {
                    assert forall|x1: i64, y1: i64, x2: i64, y2: i64|
                        #![trigger pairs@[pair_key(x1, y1)], pairs@[pair_key(x2, y2)]]
                        pairs@.contains_key(pair_key(x1, y1)) && pairs@.contains_key(pair_key(x2, y2))
                            && pairs@[pair_key(x1, y1)] == pairs@[pair_key(x2, y2)] implies x1 == x2 && y1 == y2 by {
                        lemma_word_of_i64(x1, x2);
                        lemma_word_of_i64(y1, y2);
                        lemma_word_of_i64(x1, k[0]);
                        lemma_word_of_i64(y1, k[1]);
                        lemma_word_of_i64(x2, k[0]);
                        lemma_word_of_i64(y2, k[1]);
                        lemma_pair_word_injective(x1 as u64, y1 as u64, x2 as u64, y2 as u64);
                        lemma_pair_word_injective(x1 as u64, y1 as u64, k[0] as u64, k[1] as u64);
                        lemma_pair_word_injective(x2 as u64, y2 as u64, k[0] as u64, k[1] as u64);
                        if pair_key(x1, y1) != pk {
                            assert(old_pairs.contains_key(pair_key(x1, y1)));
                        }
                        if pair_key(x2, y2) != pk {
                            assert(old_pairs.contains_key(pair_key(x2, y2)));
                        }
                    }
                }
                p
            },
        };
        assert(pairs@.contains_key(pk) && pairs@[pk] == id);
        proof {
            assert forall|key: u128| old_pairs.contains_key(key) implies pairs@.contains_key(key) && pairs@[key] == old_pairs[key] by {}
            assert forall|t: int| 0 <= t < i implies #[trigger] vertex_key(pairs@, keys@[t]) == vertex_key(old_pairs, keys@[t])
                && pairs@.contains_key(pair_key(keys@[t][0], keys@[t][1])) by {
                assert(old_pairs.contains_key(pair_key(keys@[t][0], keys@[t][1])));
            }
        }
        let vk = word_vertex_key(id, k[2]);
        assert(vk == vertex_key(pairs@, keys@[i as int]));
        let ghost old_verts = verts@;
        let ghost old_kept = kept@;
        match verts.get(&vk) {
            Some(j) => {
                let j = *j;
                proof {
                    assert(old_verts.contains_key(vk));
                    let t = choose|t: int| 0 <= t < i && #[trigger] vertex_key(old_pairs, keys@[t]) == vk;
                    assert(vertex_key(pairs@, keys@[t]) == vertex_key(old_pairs, keys@[t]));
                    let kt = keys@[t];
                    assert(pairs@.contains_key(pair_key(kt[0], kt[1])));
                    lemma_pair_word_injective(pairs@[pair_key(kt[0], kt[1])] as u64, kt[2] as u64, id as u64, k[2] as u64);
                    lemma_word_of_usize(pairs@[pair_key(kt[0], kt[1])], id);
                    lemma_word_of_i64(kt[2], k[2]);
                    assert(pairs@[pair_key(kt[0], kt[1])] == pairs@[pair_key(k[0], k[1])]);
                    assert(kt[0] == k[0] && kt[1] == k[1]);
                    assert(kt =~= k);
                    assert(verts@[vertex_key(pairs@, keys@[t])] == remap@[t]);
                }
                remap.push(j);
            },
            None => {
                let j = kept.len();
                proof {
                    assert forall|t: int| 0 <= t < i implies keys@[t] != k by {
                        if keys@[t] == k {
                            assert(verts@.contains_key(vertex_key(pairs@, keys@[t])));
                        }
                    }
                }
                kept.push(i);
                verts.insert(vk, j);
                remap.push(j);
                proof {
                    assert forall|t: int| 0 <= t < i implies {
                        &&& verts@.contains_key(#[trigger] vertex_key(pairs@, keys@[t]))
                        &&& verts@[vertex_key(pairs@, keys@[t])] == remap@[t]
                    } by {
                        assert(old_verts.contains_key(vertex_key(pairs@, keys@[t])));
                    }
                    assert forall|j2: int, t: int| 0 <= j2 < kept@.len() && 0 <= t < kept@[j2]
                        implies #[trigger] keys@[t] != #[trigger] keys@[kept@[j2] as int] by {
                        if j2 < old_kept.len() {
                            assert(kept@[j2] == old_kept[j2]);
                        }
                    }
                    assert forall|t: int| 0 <= t < i implies {
                        &&& #[trigger] remap@[t] < kept@.len()
                        &&& keys@[kept@[remap@[t] as int] as int] == keys@[t]
                    } by {
                        assert(kept@[remap@[t] as int] == old_kept[remap@[t] as int]);
                    }
                }
            },
        }
        proof {
            assert forall|kk: u128| #[trigger] verts@.contains_key(kk) implies exists|t: int| 0 <= t < i + 1 && #[trigger] vertex_key(pairs@, keys@[t]) == kk by {
                if kk == vk {
                    assert(vertex_key(pairs@, keys@[i as int]) == kk);
                } else {
                    assert(old_verts.contains_key(kk));
                    let t = choose|t: int| 0 <= t < i && #[trigger] vertex_key(old_pairs, keys@[t]) == kk;
                    assert(vertex_key(pairs@, keys@[t]) == vertex_key(old_pairs, keys@[t]));
                }
            }
        }
        i += 1;
    }
    (kept, remap)
}

/// Send each corner of each triangle through `remap`.
pub fn remap_triangles(triangles: &mut Vec<[usize; 3]>, remap: &[usize])
    requires
        forall|t: int, c: int| 0 <= t < old(triangles)@.len() && 0 <= c < 3 ==> #[trigger] old(triangles)@[t][c] < remap@.len(),
    ensures
        final(triangles)@.len() == old(triangles)@.len(),
        forall|t: int, c: int| 0 <= t < final(triangles)@.len() && 0 <= c < 3
            ==> #[trigger] final(triangles)@[t][c] == remap@[old(triangles)@[t][c] as int],
{
    let n = triangles.len();
    let mut t: usize = 0;
    while t < n
        invariant
            n == triangles@.len(),
            n == old(triangles)@.len(),
            t <= n,
            forall|s: int, c: int| t <= s < n && 0 <= c < 3 ==> #[trigger] triangles@[s][c] == old(triangles)@[s][c],
            forall|s: int, c: int| 0 <= s < n && 0 <= c < 3 ==> #[trigger] old(triangles)@[s][c] < remap@.len(),
            forall|s: int, c: int| 0 <= s < t && 0 <= c < 3 ==> #[trigger] triangles@[s][c] == remap@[old(triangles)@[s][c] as int],
        decreases n - t,
    {
        let tri = triangles[t];
        let a = tri[0];
        let b = tri[1];
        let c = tri[2];
        proof {
            assert(old(triangles)@[t as int][0] < remap@.len());
            assert(old(triangles)@[t as int][1] < remap@.len());
            assert(old(triangles)@[t as int][2] < remap@.len());
        }
        let new_tri: [usize; 3] = [remap[a], remap[b], remap[c]];
        triangles.set(t, new_tri);
        t += 1;
    }
}

} // verus!

//! Binary Merkle tree over cumulative allocations.
//!
//! Leaves are `(address, cumulative_amount)` pairs sorted strictly ascending
//! by address value; a leaf hashes to `pedersen(address, amount)`. An interior
//! node hashes its two children with the smaller value first, so a proof path
//! needs no direction bits. A level with an odd node count pairs its last node
//! with itself. Both choices are part of the tree's public contract.

use vstd::prelude::*;

use crate::api::field::FieldElement;
use crate::api::field::felt_to_b16;
use crate::api::field::hex_str_of;
use crate::api::field::pedersen;
use crate::api::field::pedersen_of;
use crate::api::field::valid_field_str;
use crate::api::field::field_str_value;
use crate::api::field::felt_from_str;
use crate::api::structs::CumulativeAllocation;
use crate::api::structs::CairoCalldata;
use crate::api::structs::QueryError;

verus! {

pub open spec fn vals(s: Seq<FieldElement>) -> Seq<int> {
    Seq::new(s.len(), |i: int| s[i]@)
}

pub open spec fn all_wf(s: Seq<FieldElement>) -> bool {
    forall|i: int| 0 <= i < s.len() ==> (#[trigger] s[i]).wf()
}

/// The hash of one leaf.
pub open spec fn leaf_hash(address: int, amount: u128) -> int {
    pedersen_of(address, amount as int)
}

/// The hash of an interior node: children in ascending value order.
pub open spec fn node_hash(x: int, y: int) -> int {
    if x <= y {
        pedersen_of(x, y)
    } else {
        pedersen_of(y, x)
    }
}

pub open spec fn leaf_hashes(s: Seq<CumulativeAllocation>) -> Seq<int> {
    Seq::new(s.len(), |i: int| leaf_hash(s[i].address@, s[i].cumulative_amount))
}

/// One level up: pairwise node hashes, an odd last node paired with itself.
pub open spec fn next_layer(l: Seq<int>) -> Seq<int> {
    Seq::new((l.len() + 1) / 2, |i: int|
        if 2 * i + 1 < l.len() {
            node_hash(l[2 * i], l[2 * i + 1])
        } else {
            node_hash(l[2 * i], l[2 * i])
        })
}

/// The root a leaf-hash sequence determines.
pub open spec fn merkle_root(l: Seq<int>) -> int
    decreases l.len(),
{
    if l.len() <= 1 {
        if l.len() == 1 {
            l[0]
        } else {
            0
        }
    } else {
        merkle_root(next_layer(l))
    }
}

/// The sibling hashes on the way from leaf `i` to the root, bottom up.
pub open spec fn sib_path(l: Seq<int>, i: int) -> Seq<int>
    decreases l.len(),
{
    if l.len() <= 1 {
        Seq::empty()
    } else {
        let s = if i % 2 == 0 {
            if i + 1 < l.len() {
                l[i + 1]
            } else {
                l[i]
            }
        } else {
            l[i - 1]
        };
        seq![s] + sib_path(next_layer(l), i / 2)
    }
}

/// Recomputing a root from a leaf hash and its sibling path.
pub open spec fn climb(h: int, sibs: Seq<int>) -> int
    decreases sibs.len(),
{
    if sibs.len() == 0 {
        h
    } else {
        climb(node_hash(h, sibs.first()), sibs.drop_first())
    }
}

/// Leaves sorted strictly ascending by address value, addresses canonical.
pub open spec fn sorted_leaves(s: Seq<CumulativeAllocation>) -> bool {
    &&& forall|i: int| 0 <= i < s.len() ==> (#[trigger] s[i]).address.wf()
    &&& forall|i: int, j: int| 0 <= i < j < s.len() ==> s[i].address@ < s[j].address@
}

pub open spec fn has_leaf(s: Seq<CumulativeAllocation>, a: int) -> bool {
    exists|i: int| 0 <= i < s.len() && s[i].address@ == a
}

pub open spec fn leaf_index_of(s: Seq<CumulativeAllocation>, a: int) -> int {
    choose|i: int| 0 <= i < s.len() && s[i].address@ == a
}

pub proof fn lemma_leaf_index(s: Seq<CumulativeAllocation>, i: int)
    requires
        sorted_leaves(s),
        0 <= i < s.len(),
    ensures
        has_leaf(s, s[i].address@),
        leaf_index_of(s, s[i].address@) == i,
{
    let a = s[i].address@;
    assert(has_leaf(s, a));
    let k = leaf_index_of(s, a);
    if k != i {
        if k < i {
            assert(s[k].address@ < s[i].address@);
        } else {
            assert(s[i].address@ < s[k].address@);
        }
    }
}

/// The canonical string form of a field value: `0x` and 64 hex digits.
pub open spec fn b16str(v: int) -> Seq<char> {
    seq!['0', 'x'] + hex_str_of(v, 64)
}

pub open spec fn str_views(s: Seq<String>) -> Seq<Seq<char>> {
    Seq::new(s.len(), |i: int| s[i]@)
}

/// The call arguments proving one leaf: address, amount, then the siblings,
/// every element in canonical hex form.
pub open spec fn calldata_spec(s: Seq<CumulativeAllocation>, a: int) -> Seq<Seq<char>> {
    let i = leaf_index_of(s, a);
    seq![b16str(a), b16str(s[i].cumulative_amount as int)]
        + sib_path(leaf_hashes(s), i).map(|k: int, v: int| b16str(v))
}

/// A Merkle tree with all its levels, leaves first.
pub struct MerkleTree {
    pub allocations: Vec<CumulativeAllocation>,
    pub layers: Vec<Vec<FieldElement>>,
    pub root: FieldElement,
}

impl MerkleTree {
    pub open spec fn wf(self) -> bool {
        &&& sorted_leaves(self.allocations@)
        &&& self.layers@.len() >= 1
        &&& vals(self.layers@[0]@) == leaf_hashes(self.allocations@)
        &&& forall|k: int| 1 <= k < self.layers@.len()
            ==> vals(#[trigger] self.layers@[k]@) == next_layer(vals(self.layers@[k - 1]@))
        &&& forall|k: int| 0 <= k < self.layers@.len() - 1
            ==> (#[trigger] self.layers@[k]@).len() >= 2
        &&& self.layers@[self.layers@.len() - 1]@.len() == 1
        &&& forall|k: int| 0 <= k < self.layers@.len() ==> all_wf(#[trigger] self.layers@[k]@)
        &&& self.root == self.layers@[self.layers@.len() - 1]@[0]
    }

    /// Build the tree bottom-up from sorted leaves.
    pub fn new(allocations: Vec<CumulativeAllocation>) -> (r: MerkleTree)
        requires
            sorted_leaves(allocations@),
            allocations@.len() >= 1,
        ensures
            r.wf(),
            r.allocations@ == allocations@,
            r.root@ == merkle_root(leaf_hashes(allocations@)),
    {
        let mut layer0: Vec<FieldElement> = Vec::new();
        let mut i: usize = 0;
        while i < allocations.len()
            invariant
                sorted_leaves(allocations@),
                0 <= i <= allocations@.len(),
                vals(layer0@) =~= leaf_hashes(allocations@.take(i as int)),
                all_wf(layer0@),
            decreases allocations@.len() - i,
        {
            let amt = FieldElement::from_u128(allocations[i].cumulative_amount);
            let ghost prev = layer0@;
            let h = pedersen(&allocations[i].address, &amt);
            layer0.push(h);
            proof {
                let cur = vals(layer0@);
                let want = leaf_hashes(allocations@.take(i + 1 as int));
                assert(vals(prev).len() == prev.len());
                assert(leaf_hashes(allocations@.take(i as int)).len() == i);
                assert(prev.len() == i);
                assert(layer0@ == prev.push(h));
                assert forall|q: int| 0 <= q < cur.len() implies cur[q] == want[q] by {
                    if q < i {
                        assert(prev.push(h)[q] == prev[q]);
                        assert(cur[q] == vals(prev)[q]);
                        assert(vals(prev)[q] == leaf_hashes(allocations@.take(i as int))[q]);
                    } else {
                        assert(prev.push(h)[q] == h);
                    }
                }
                assert(cur =~= want);
            }
            i += 1;
        }
        proof {
            assert(allocations@.take(allocations@.len() as int) =~= allocations@);
            assert(vals(layer0@) =~= leaf_hashes(allocations@));
        }
        let mut layers: Vec<Vec<FieldElement>> = Vec::new();
        layers.push(layer0);
        while layers[layers.len() - 1].len() > 1
            invariant
                layers@.len() >= 1,
                vals(layers@[0]@) == leaf_hashes(allocations@),
                forall|k: int| 1 <= k < layers@.len()
                    ==> vals(#[trigger] layers@[k]@) == next_layer(vals(layers@[k - 1]@)),
                forall|k: int| 0 <= k < layers@.len() - 1
                    ==> (#[trigger] layers@[k]@).len() >= 2,
                layers@[layers@.len() - 1]@.len() >= 1,
                forall|k: int| 0 <= k < layers@.len() ==> all_wf(#[trigger] layers@[k]@),
            decreases layers@[layers@.len() - 1]@.len(),
        {
            let cur_idx = layers.len() - 1;
            let n = layers[cur_idx].len();
            let cnt = n - n / 2;
            proof {
                assert(cnt == (n + 1) / 2);
            }
            let mut next: Vec<FieldElement> = Vec::new();
            let mut j: usize = 0;
            while j < cnt
                invariant
                    cur_idx == layers@.len() - 1,
                    0 <= cur_idx < layers@.len(),
                    n == layers@[cur_idx as int]@.len(),
                    cnt == (n + 1) / 2,
                    0 <= j <= cnt,
                    all_wf(layers@[cur_idx as int]@),
                    vals(next@) =~= next_layer(vals(layers@[cur_idx as int]@)).take(j as int),
                    all_wf(next@),
                decreases cnt - j,
            {
                let a = layers[cur_idx][2 * j];
                let b = if 2 * j + 1 < n {
                    layers[cur_idx][2 * j + 1]
                } else {
                    a
                };
                let ghost prev = next@;
                let h = hash_node(&a, &b);
                next.push(h);
                proof {
                    let lk = vals(layers@[cur_idx as int]@);
                    let cur = vals(next@);
                    let want = next_layer(lk).take(j + 1 as int);
                    assert(vals(prev).len() == prev.len());
                    assert(next_layer(lk).len() == cnt);
                    assert(next_layer(lk).take(j as int).len() == j);
                    assert(prev.len() == j);
                    assert(next@ == prev.push(h));
                    assert forall|q: int| 0 <= q < cur.len() implies cur[q] == want[q] by {
                        if q < j {
                            assert(prev.push(h)[q] == prev[q]);
                            assert(cur[q] == vals(prev)[q]);
                            assert(vals(prev)[q] == next_layer(lk).take(j as int)[q]);
                        } else {
                            assert(prev.push(h)[q] == h);
                            assert(a@ == lk[2 * q] && (2 * q + 1 < lk.len() ==> b@ == lk[2 * q
                                + 1]));
                        }
                    }
                    assert(cur =~= want);
                }
                j += 1;
            }
            proof {
                let lk = vals(layers@[cur_idx as int]@);
                assert(next_layer(lk).take(cnt as int) =~= next_layer(lk));
                assert(vals(next@) =~= next_layer(lk));
            }
            layers.push(next);
        }
        let root = layers[layers.len() - 1][0];
        let r = MerkleTree { allocations, layers, root };
        proof {
            lemma_root_matches(r);
        }
        r
    }

    /// The proof call arguments for an address, or the error that says why
    /// there are none: a malformed address, or no leaf for it.
    pub fn address_calldata(&self, address: &str) -> (r: Result<CairoCalldata, QueryError>)
        requires
            self.wf(),
        ensures
            r is Ok <==> (valid_field_str(address@)
                && has_leaf(self.allocations@, field_str_value(address@))),
            !valid_field_str(address@)
                ==> r == Err::<CairoCalldata, QueryError>(QueryError::InvalidFieldElement),
            valid_field_str(address@) && !has_leaf(self.allocations@, field_str_value(address@))
                ==> r == Err::<CairoCalldata, QueryError>(QueryError::AddressNotAllocated),
            r is Ok ==> str_views(r->Ok_0.data@)
                == calldata_spec(self.allocations@, field_str_value(address@)),
    {
        let felt = match felt_from_str(address) {
            Some(f) => f,
            None => {
                return Err(QueryError::InvalidFieldElement);
            },
        };
        let ghost a = field_str_value(address@);
        let mut i: usize = 0;
        let n = self.allocations.len();
        while i < n
            invariant
                n == self.allocations@.len(),
                self.wf(),
                0 <= i <= n,
                valid_field_str(address@),
                a == field_str_value(address@),
                felt@ == a,
                forall|j: int| 0 <= j < i ==> (#[trigger] self.allocations@[j]).address@ != a,
            decreases n - i,
        {
            if self.allocations[i].address == felt {
                proof {
                    crate::api::field::lemma_felt_val_order(
                        self.allocations@[i as int].address, felt);
                    lemma_leaf_index(self.allocations@, i as int);
                    assert(self.allocations@[i as int].address@ == a);
                    assert(has_leaf(self.allocations@, a));
                }
                let out = self.build_calldata(i);
                proof {
                    assert(str_views(out.data@) == calldata_spec(self.allocations@, a));
                }
                return Ok(out);
            }
            proof {
                crate::api::field::lemma_felt_val_order(self.allocations@[i as int].address, felt);
            }
            i += 1;
        }
        proof {
            assert(!has_leaf(self.allocations@, a));
        }
        Err(QueryError::AddressNotAllocated)
    }

    /// Assemble the calldata for the leaf at a known index.
    fn build_calldata(&self, i: usize) -> (r: CairoCalldata)
        requires
            self.wf(),
            0 <= i < self.allocations@.len(),
        ensures
            str_views(r.data@) == calldata_spec(self.allocations@,
                self.allocations@[i as int].address@),
    {
        let ghost l0 = vals(self.layers@[0]@);
        proof {
            assert(vals(self.layers@[0]@).len() == self.layers@[0]@.len());
            assert(leaf_hashes(self.allocations@).len() == self.allocations@.len());
            assert(vals(Seq::<FieldElement>::empty()) + sib_path(l0, i as int) =~= sib_path(
                l0, i as int));
        }
        let mut sibs: Vec<FieldElement> = Vec::new();
        let mut idx: usize = i;
        let mut k: usize = 0;
        let last = self.layers.len() - 1;
        while k < last
            invariant
                self.wf(),
                last == self.layers@.len() - 1,
                0 <= k <= last,
                0 <= idx < self.layers@[k as int]@.len(),
                all_wf(sibs@),
                l0 == vals(self.layers@[0]@),
                0 <= i < l0.len(),
                sib_path(l0, i as int) =~= vals(sibs@) + sib_path(
                    vals(self.layers@[k as int]@), idx as int),
            decreases last - k,
        {
            let cur = &self.layers[k];
            let cn = cur.len();
            let sib = if idx % 2 == 0 {
                if idx + 1 < cn {
                    cur[idx + 1]
                } else {
                    cur[idx]
                }
            } else {
                cur[idx - 1]
            };
            proof {
                let lk = vals(self.layers@[k as int]@);
                let lk1 = vals(self.layers@[k + 1 as int]@);
                assert(lk1 == next_layer(lk));
                assert(sib_path(lk, idx as int) =~= seq![sib@] + sib_path(lk1, idx as int / 2));
                assert((idx as int) / 2 < lk1.len());
                assert(vals(sibs@.push(sib)) =~= vals(sibs@) + seq![sib@]);
                assert(vals(sibs@) + sib_path(lk, idx as int) =~= (vals(sibs@) + seq![sib@])
                    + sib_path(lk1, idx as int / 2));
            }
            sibs.push(sib);
            idx = idx / 2;
            k += 1;
        }
        proof {
            assert(sib_path(vals(self.layers@[last as int]@), idx as int) =~= Seq::<int>::empty());
            assert(sib_path(l0, i as int) =~= vals(sibs@));
        }
        let mut data: Vec<String> = Vec::new();
        data.push(felt_to_b16(&self.allocations[i].address));
        let amt = FieldElement::from_u128(self.allocations[i].cumulative_amount);
        data.push(felt_to_b16(&amt));
        let mut m: usize = 0;
        while m < sibs.len()
            invariant
                0 <= m <= sibs@.len(),
                all_wf(sibs@),
                data@.len() == 2 + m,
                str_views(data@) =~= (seq![
                    b16str(self.allocations@[i as int].address@),
                    b16str(self.allocations@[i as int].cumulative_amount as int),
                ] + vals(sibs@).map(|q: int, v: int| b16str(v)).take(m as int)),
                self.wf(),
                0 <= i < self.allocations@.len(),
            decreases sibs@.len() - m,
        {
            let ghost prev = data@;
            data.push(felt_to_b16(&sibs[m]));
            proof {
                let cur = str_views(data@);
                let want = seq![
                    b16str(self.allocations@[i as int].address@),
                    b16str(self.allocations@[i as int].cumulative_amount as int),
                ] + vals(sibs@).map(|q: int, v: int| b16str(v)).take(m + 1 as int);
                assert forall|q: int| 0 <= q < cur.len() implies cur[q] == want[q] by {
                    if q < 2 + m {
                        assert(cur[q] == str_views(prev)[q]);
                    } else {
                        assert(data@[q]@ == b16str(vals(sibs@)[m as int]));
                        assert(vals(sibs@).map(|q2: int, v: int| b16str(v))[m as int] == b16str(
                            vals(sibs@)[m as int]));
                    }
                }
                assert(cur =~= want);
            }
            m += 1;
        }
        proof {
            lemma_leaf_index(self.allocations@, i as int);
            let pm = vals(sibs@).map(|q: int, v: int| b16str(v));
            assert(pm.take(sibs@.len() as int) =~= pm);
            assert(sib_path(leaf_hashes(self.allocations@), i as int) =~= vals(sibs@));
            assert(sib_path(leaf_hashes(self.allocations@), i as int).map(
                |q: int, v: int| b16str(v)) =~= pm);
            assert(str_views(data@) =~= calldata_spec(self.allocations@,
                self.allocations@[i as int].address@));
        }
        CairoCalldata { data }
    }
}

/// The hash of one leaf, exactly as the tree computes it.
pub fn hash_leaf(address: &FieldElement, amount: u128) -> (r: FieldElement)
    requires
        address.wf(),
    ensures
        r.wf(),
        r@ == leaf_hash(address@, amount),
{
    let amt = FieldElement::from_u128(amount);
    pedersen(address, &amt)
}

/// Hash two sibling values into their parent, smaller value first.
pub fn hash_node(a: &FieldElement, b: &FieldElement) -> (r: FieldElement)
    requires
        a.wf(),
        b.wf(),
    ensures
        r.wf(),
        r@ == node_hash(a@, b@),
{
    if b.lt(a) {
        pedersen(b, a)
    } else {
        pedersen(a, b)
    }
}

/// Recompute a root from a leaf hash and its sibling path.
pub fn climb_path(leaf: &FieldElement, sibs: &Vec<FieldElement>) -> (r: FieldElement)
    requires
        leaf.wf(),
        all_wf(sibs@),
    ensures
        r.wf(),
        r@ == climb(leaf@, vals(sibs@)),
{
    let mut acc = *leaf;
    proof {
        assert(vals(sibs@).skip(0) =~= vals(sibs@));
    }
    let mut k: usize = 0;
    while k < sibs.len()
        invariant
            0 <= k <= sibs@.len(),
            all_wf(sibs@),
            acc.wf(),
            climb(leaf@, vals(sibs@)) == climb(acc@, vals(sibs@).skip(k as int)),
        decreases sibs@.len() - k,
    {
        let h = hash_node(&acc, &sibs[k]);
        proof {
            let rest = vals(sibs@).skip(k as int);
            assert(rest.first() == sibs@[k as int]@);
            assert(rest.drop_first() =~= vals(sibs@).skip(k + 1 as int));
        }
        acc = h;
        k += 1;
    }
    proof {
        assert(vals(sibs@).skip(sibs@.len() as int) =~= Seq::<int>::empty());
    }
    acc
}

/// A well-formed tree's stored root is the root its leaves determine.
pub proof fn lemma_root_matches(t: MerkleTree)
    requires
        t.wf(),
    ensures
        t.root@ == merkle_root(leaf_hashes(t.allocations@)),
{
    lemma_chain(t, 0);
}

proof fn lemma_chain(t: MerkleTree, k: int)
    requires
        t.wf(),
        0 <= k < t.layers@.len(),
    ensures
        merkle_root(vals(t.layers@[k]@)) == t.root@,
    decreases t.layers@.len() - k,
{
    let lk = vals(t.layers@[k]@);
    if k == t.layers@.len() - 1 {
        assert(lk.len() == 1);
        assert(merkle_root(lk) == lk[0]);
    } else {
        assert(lk.len() >= 2);
        assert(vals(t.layers@[k + 1]@) == next_layer(lk));
        lemma_chain(t, k + 1);
    }
}

/// Node hashing ignores child order.
pub proof fn lemma_node_hash_comm(x: int, y: int)
    ensures
        node_hash(x, y) == node_hash(y, x),
{
}

/// Walking any leaf's sibling path reproduces the root: every proof the tree
/// hands out is valid against the root it reports.
pub proof fn lemma_climb_path(l: Seq<int>, i: int)
    requires
        l.len() >= 1,
        0 <= i < l.len(),
    ensures
        climb(l[i], sib_path(l, i)) == merkle_root(l),
    decreases l.len(),
{
    if l.len() == 1 {
        assert(sib_path(l, i) =~= Seq::<int>::empty());
    } else {
        let nl = next_layer(l);
        let i2 = i / 2;
        assert(0 <= i2 < nl.len());
        lemma_climb_path(nl, i2);
        let s = if i % 2 == 0 {
            if i + 1 < l.len() {
                l[i + 1]
            } else {
                l[i]
            }
        } else {
            l[i - 1]
        };
        assert(sib_path(l, i) == seq![s] + sib_path(nl, i2));
        assert((seq![s] + sib_path(nl, i2)).first() == s);
        assert((seq![s] + sib_path(nl, i2)).drop_first() =~= sib_path(nl, i2));
        if i % 2 == 0 {
            assert(2 * i2 == i);
            if i + 1 < l.len() {
                assert(nl[i2] == node_hash(l[i], l[i + 1]));
            } else {
                assert(nl[i2] == node_hash(l[i], l[i]));
            }
        } else {
            assert(2 * i2 + 1 == i);
            assert(nl[i2] == node_hash(l[i - 1], l[i]));
            lemma_node_hash_comm(l[i], l[i - 1]);
        }
        assert(climb(l[i], sib_path(l, i)) == climb(node_hash(l[i], s), sib_path(nl, i2)));
        assert(node_hash(l[i], s) == nl[i2]);
    }
}

/// The validity of every handed-out proof, stated of a whole tree: climbing
/// from any leaf's hash along that leaf's sibling path ends at the tree root.
pub proof fn lemma_proof_validity(t: MerkleTree, i: int)
    requires
        t.wf(),
        0 <= i < t.allocations@.len(),
    ensures
        climb(
            leaf_hash(t.allocations@[i].address@, t.allocations@[i].cumulative_amount),
            sib_path(leaf_hashes(t.allocations@), i),
        ) == t.root@,
{
    lemma_root_matches(t);
    lemma_climb_path(leaf_hashes(t.allocations@), i);
}

} // verus!

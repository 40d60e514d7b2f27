//! A three-level bitmap index over the 24-bit bin-id space.
//!
//! A bin id is marked present here exactly when its bin holds liquidity. The
//! tree supports insert, remove, membership, and nearest-populated-bin search
//! in either direction, skipping over empty regions one 8-bit level at a time.

use vstd::prelude::*;

verus! {

/// Whether bit `k` of the word is set.
pub open spec fn u64_bit(w: u64, k: u64) -> bool {
    (w >> k) & 1 == 1
}

/// Setting one bit leaves every other bit alone.
proof fn lemma_u64_set_bit(w: u64, j: u64, r: u64)
    by (bit_vector)
    requires
        j < 64,
        r == w | (1u64 << j),
    ensures
        forall|k: u64| k < 64 ==> #[trigger] u64_bit(r, k) == (k == j || u64_bit(w, k)),
{
}

/// Clearing one bit leaves every other bit alone.
proof fn lemma_u64_clear_bit(w: u64, j: u64, r: u64)
    by (bit_vector)
    requires
        j < 64,
        r == w & !(1u64 << j),
    ensures
        forall|k: u64| k < 64 ==> #[trigger] u64_bit(r, k) == (k != j && u64_bit(w, k)),
{
}

/// Whether flat bit `pos` of the word vector is set.
pub open spec fn bm_bit(v: Seq<u64>, pos: nat) -> bool {
    pos / 64 < v.len() && u64_bit(v[(pos / 64) as int], (pos % 64) as u64)
}

/// Reads flat bit `pos`.
fn bm_get(v: &Vec<u64>, pos: u32) -> (r: bool)
    requires
        pos as nat / 64 < v@.len(),
    ensures
        r == bm_bit(v@, pos as nat),
{
    let w = v[(pos / 64) as usize];
    (w >> ((pos % 64) as u64)) & 1 == 1
}

/// Sets flat bit `pos`, leaving every other bit alone.
fn bm_set(v: &mut Vec<u64>, pos: u32)
    requires
        pos as nat / 64 < old(v)@.len(),
    ensures
        final(v)@.len() == old(v)@.len(),
        forall|q: nat|
            q / 64 < old(v)@.len() ==> #[trigger] bm_bit(final(v)@, q) == (q == pos as nat
                || bm_bit(old(v)@, q)),
{
    let wi = (pos / 64) as usize;
    let j = (pos % 64) as u64;
    let w = v[wi];
    let neww = w | (1u64 << j);
    v.set(wi, neww);
    proof {
        lemma_u64_set_bit(w, j, neww);
        assert forall|q: nat| q / 64 < old(v)@.len() implies #[trigger] bm_bit(v@, q) == (q
            == pos as nat || bm_bit(old(v)@, q)) by {
            vstd::arithmetic::div_mod::lemma_fundamental_div_mod(q as int, 64);
            vstd::arithmetic::div_mod::lemma_fundamental_div_mod(pos as int, 64);
            if q / 64 == wi as nat {
                assert(u64_bit(neww, (q % 64) as u64) == ((q % 64) as u64 == j || u64_bit(
                    w,
                    (q % 64) as u64,
                )));
            }
        }
    }
}

/// Clears flat bit `pos`, leaving every other bit alone.
fn bm_clear(v: &mut Vec<u64>, pos: u32)
    requires
        pos as nat / 64 < old(v)@.len(),
    ensures
        final(v)@.len() == old(v)@.len(),
        forall|q: nat|
            q / 64 < old(v)@.len() ==> #[trigger] bm_bit(final(v)@, q) == (q != pos as nat
                && bm_bit(old(v)@, q)),
{
    let wi = (pos / 64) as usize;
    let j = (pos % 64) as u64;
    let w = v[wi];
    let neww = w & !(1u64 << j);
    v.set(wi, neww);
    proof {
        lemma_u64_clear_bit(w, j, neww);
        assert forall|q: nat| q / 64 < old(v)@.len() implies #[trigger] bm_bit(v@, q) == (q
            != pos as nat && bm_bit(old(v)@, q)) by {
            vstd::arithmetic::div_mod::lemma_fundamental_div_mod(q as int, 64);
            vstd::arithmetic::div_mod::lemma_fundamental_div_mod(pos as int, 64);
            if q / 64 == wi as nat {
                assert(u64_bit(neww, (q % 64) as u64) == ((q % 64) as u64 != j && u64_bit(
                    w,
                    (q % 64) as u64,
                )));
            }
        }
    }
}

/// A probe position below `hi` lands in a word the scan may read.
proof fn lemma_scan_probe_in_range(p: nat, hi: nat, len: nat)
    requires
        p < hi,
        hi / 64 <= len,
        hi % 64 == 0 || hi / 64 < len,
    ensures
        p / 64 < len,
{
    vstd::arithmetic::div_mod::lemma_fundamental_div_mod(hi as int, 64);
    vstd::arithmetic::div_mod::lemma_fundamental_div_mod(p as int, 64);
    if hi % 64 == 0 {
        vstd::arithmetic::div_mod::lemma_fundamental_div_mod_converse(
            hi as int - 1,
            64,
            hi as int / 64 - 1,
            63,
        );
        vstd::arithmetic::div_mod::lemma_div_is_ordered(p as int, hi as int - 1, 64);
    } else {
        vstd::arithmetic::div_mod::lemma_div_is_ordered(p as int, hi as int, 64);
    }
}

/// The highest set bit in positions `[lo, hi)`, scanning downward.
fn bm_scan_desc(v: &Vec<u64>, lo: u32, hi: u32) -> (r: Option<u32>)
    requires
        lo <= hi,
        hi as nat / 64 <= v@.len(),
        hi as nat % 64 == 0 || hi as nat / 64 < v@.len(),
    ensures
        match r {
            Some(b) => lo <= b < hi && bm_bit(v@, b as nat) && forall|q: nat|
                b < q < hi ==> !bm_bit(v@, q),
            None => forall|q: nat| lo <= q < hi ==> !bm_bit(v@, q),
        },
{
    let mut p = hi;
    while p > lo
        invariant
            lo <= p <= hi,
            hi as nat / 64 <= v@.len(),
            hi as nat % 64 == 0 || hi as nat / 64 < v@.len(),
            forall|q: nat| p <= q < hi ==> !bm_bit(v@, q),
        decreases p,
    {
        p = p - 1;
        proof {
            lemma_scan_probe_in_range(p as nat, hi as nat, v@.len());
        }
        if bm_get(v, p) {
            return Some(p);
        }
    }
    None
}

/// The lowest set bit in positions `[lo, hi)`, scanning upward.
fn bm_scan_asc(v: &Vec<u64>, lo: u32, hi: u32) -> (r: Option<u32>)
    requires
        lo <= hi,
        hi as nat / 64 <= v@.len(),
        hi as nat % 64 == 0 || hi as nat / 64 < v@.len(),
    ensures
        match r {
            Some(b) => lo <= b < hi && bm_bit(v@, b as nat) && forall|q: nat|
                lo <= q < b ==> !bm_bit(v@, q),
            None => forall|q: nat| lo <= q < hi ==> !bm_bit(v@, q),
        },
{
    let mut p = lo;
    while p < hi
        invariant
            lo <= p <= hi,
            hi as nat / 64 <= v@.len(),
            hi as nat % 64 == 0 || hi as nat / 64 < v@.len(),
            forall|q: nat| lo <= q < p ==> !bm_bit(v@, q),
        decreases hi - p,
    {
        proof {
            lemma_scan_probe_in_range(p as nat, hi as nat, v@.len());
        }
        if bm_get(v, p) {
            return Some(p);
        }
        p = p + 1;
    }
    None
}

/// One beyond the largest bin id: the id space is 24 bits.
pub const ID_SPACE: u32 = 0x1000000;

/// A sparse presence index over the 24-bit bin-id space.
///
/// Three bitmap levels with 8-bit fanout: `l2` holds one bit per id, `l1` one
/// bit per group of 256 ids, `l0` one bit per group of 65536 ids. A parent bit
/// is set exactly when some bit below it is set, which lets a nearest-neighbor
/// search skip an empty region in one step instead of crawling through it.
pub struct TreeUint24 {
    l0: Vec<u64>,
    l1: Vec<u64>,
    l2: Vec<u64>,
}

impl View for TreeUint24 {
    type V = Set<u32>;

    /// The set of present ids.
    closed spec fn view(&self) -> Set<u32> {
        Set::new(|id: u32| id < ID_SPACE && bm_bit(self.l2@, id as nat))
    }
}

impl TreeUint24 {
    /// Level lengths are fixed and parent bits mirror child words.
    pub closed spec fn wf(self) -> bool {
        &&& self.l0@.len() == 4
        &&& self.l1@.len() == 1024
        &&& self.l2@.len() == 262144
        &&& forall|g: nat|
            g < 0x10000 ==> #[trigger] bm_bit(self.l1@, g) == exists|b: nat|
                b < 256 && #[trigger] bm_bit(self.l2@, g * 256 + b)
        &&& forall|n: nat|
            n < 256 ==> #[trigger] bm_bit(self.l0@, n) == exists|b: nat|
                b < 256 && #[trigger] bm_bit(self.l1@, n * 256 + b)
    }

    /// An empty tree.
    pub fn new() -> (t: TreeUint24)
        ensures
            t.wf(),
            t@ == Set::<u32>::empty(),
    {
        let mut l0: Vec<u64> = Vec::new();
        let mut i: usize = 0;
        while i < 4
            invariant
                l0@.len() == i,
                i <= 4,
                forall|k: int| 0 <= k < i ==> l0@[k] == 0u64,
            decreases 4 - i,
        {
            l0.push(0);
            i = i + 1;
        }
        let mut l1: Vec<u64> = Vec::new();
        let mut i: usize = 0;
        while i < 1024
            invariant
                l1@.len() == i,
                i <= 1024,
                forall|k: int| 0 <= k < i ==> l1@[k] == 0u64,
            decreases 1024 - i,
        {
            l1.push(0);
            i = i + 1;
        }
        let mut l2: Vec<u64> = Vec::new();
        let mut i: usize = 0;
        while i < 262144
            invariant
                l2@.len() == i,
                i <= 262144,
                forall|k: int| 0 <= k < i ==> l2@[k] == 0u64,
            decreases 262144 - i,
        {
            l2.push(0);
            i = i + 1;
        }
        let t = TreeUint24 { l0, l1, l2 };
        proof {
            assert(forall|k: u64| #[trigger] u64_bit(0u64, k) == false) by (bit_vector);
            assert(t@ =~= Set::<u32>::empty());
        }
        t
    }

    /// Whether `id` is present.
    pub fn contains(&self, id: u32) -> (r: bool)
        requires
            self.wf(),
            id < ID_SPACE,
        ensures
            r == self@.contains(id),
    {
        proof {
            lemma_id_div(id as nat);
        }
        bm_get(&self.l2, id)
    }

    /// Marks `id` present, updating the parent levels.
    pub fn insert(&mut self, id: u32)
        requires
            old(self).wf(),
            id < ID_SPACE,
        ensures
            final(self).wf(),
            final(self)@ == old(self)@.insert(id),
    {
        proof {
            lemma_id_div(id as nat);
            lemma_word_bounds();
        }
        let g: u32 = id / 256;
        let n2: u32 = id / 65536;
        bm_set(&mut self.l2, id);
        bm_set(&mut self.l1, g);
        bm_set(&mut self.l0, n2);
        proof {
            let post = *self;
            let pre = *old(self);
            assert forall|gg: nat| gg < 0x10000 implies #[trigger] bm_bit(post.l1@, gg)
                == exists|b: nat| b < 256 && #[trigger] bm_bit(post.l2@, gg * 256 + b) by {
                lemma_group_cover(gg);
                if gg == g as nat {
                    assert(gg * 256 + (id as nat % 256) == id as nat);
                    assert(bm_bit(post.l2@, gg * 256 + (id as nat % 256)));
                    assert(bm_bit(post.l1@, gg));
                } else {
                    assert forall|b: nat| b < 256 implies #[trigger] bm_bit(post.l2@, gg * 256
                        + b) == bm_bit(pre.l2@, gg * 256 + b) by {
                        lemma_child_pos(gg, b, 256);
                        assert(gg * 256 + b != id as nat);
                    }
                    lemma_exists_eq(pre.l2@, post.l2@, gg);
                    assert(bm_bit(post.l1@, gg) == bm_bit(pre.l1@, gg));
                }
            }
            assert forall|nn: nat| nn < 256 implies #[trigger] bm_bit(post.l0@, nn) == exists|
                b: nat,
            | b < 256 && #[trigger] bm_bit(post.l1@, nn * 256 + b) by {
                lemma_group_cover(nn);
                if nn == n2 as nat {
                    assert(nn * 256 + (g as nat % 256) == g as nat);
                    assert(bm_bit(post.l1@, nn * 256 + (g as nat % 256)));
                    assert(bm_bit(post.l0@, nn));
                } else {
                    assert forall|b: nat| b < 256 implies #[trigger] bm_bit(post.l1@, nn * 256
                        + b) == bm_bit(pre.l1@, nn * 256 + b) by {
                        lemma_child_pos(nn, b, 256);
                        assert(nn * 256 + b != g as nat);
                    }
                    lemma_exists_eq(pre.l1@, post.l1@, nn);
                    assert(bm_bit(post.l0@, nn) == bm_bit(pre.l0@, nn));
                }
            }
            assert(post@ =~= pre@.insert(id));
        }
    }

    /// Marks `id` absent, clearing parent bits whose subtree became empty.
    pub fn remove(&mut self, id: u32)
        requires
            old(self).wf(),
            id < ID_SPACE,
        ensures
            final(self).wf(),
            final(self)@ == old(self)@.remove(id),
    {
        proof {
            lemma_id_div(id as nat);
            lemma_word_bounds();
        }
        let g: u32 = id / 256;
        let n2: u32 = id / 65536;
        bm_clear(&mut self.l2, id);
        let scan1 = bm_scan_desc(&self.l2, g * 256, g * 256 + 256);
        if scan1.is_none() {
            bm_clear(&mut self.l1, g);
        }
        let scan2: Option<u32> = if scan1.is_none() {
            bm_scan_desc(&self.l1, n2 * 256, n2 * 256 + 256)
        } else {
            None
        };
        if scan1.is_none() && scan2.is_none() {
            bm_clear(&mut self.l0, n2);
        }
        proof {
            let post = *self;
            let pre = *old(self);
            assert forall|gg: nat| gg < 0x10000 implies #[trigger] bm_bit(post.l1@, gg)
                == exists|b: nat| b < 256 && #[trigger] bm_bit(post.l2@, gg * 256 + b) by {
                lemma_group_cover(gg);
                if gg == g as nat {
                    match scan1 {
                        None => {
                            assert(!bm_bit(post.l1@, gg));
                            assert(forall|b: nat|
                                b < 256 ==> !#[trigger] bm_bit(post.l2@, gg * 256 + b));
                        },
                        Some(p) => {
                            let boff = (p as nat - gg * 256) as nat;
                            assert(bm_bit(post.l2@, gg * 256 + boff));
                            // the surviving bit was already there before the clear
                            assert(gg * 256 + boff != id as nat);
                            assert(bm_bit(pre.l2@, gg * 256 + boff));
                            assert(bm_bit(pre.l1@, gg));
                            assert(bm_bit(post.l1@, gg) == bm_bit(pre.l1@, gg));
                        },
                    }
                } else {
                    assert forall|b: nat| b < 256 implies #[trigger] bm_bit(post.l2@, gg * 256
                        + b) == bm_bit(pre.l2@, gg * 256 + b) by {
                        lemma_child_pos(gg, b, 256);
                        assert(gg * 256 + b != id as nat);
                    }
                    lemma_exists_eq(pre.l2@, post.l2@, gg);
                    assert(bm_bit(post.l1@, gg) == bm_bit(pre.l1@, gg));
                }
            }
            assert forall|nn: nat| nn < 256 implies #[trigger] bm_bit(post.l0@, nn) == exists|
                b: nat,
            | b < 256 && #[trigger] bm_bit(post.l1@, nn * 256 + b) by {
                lemma_group_cover(nn);
                if nn == n2 as nat {
                    if scan1.is_none() && scan2.is_none() {
                        assert(!bm_bit(post.l0@, nn));
                        assert(forall|b: nat|
                            b < 256 ==> !#[trigger] bm_bit(post.l1@, nn * 256 + b));
                    } else if scan1.is_none() {
                        // scan2 found a surviving sibling group under this top node
                        let p = scan2->Some_0;
                        let boff = (p as nat - nn * 256) as nat;
                        assert(bm_bit(post.l1@, nn * 256 + boff));
                        assert(p as nat != g as nat);
                        assert(bm_bit(pre.l1@, nn * 256 + boff));
                        assert(bm_bit(pre.l0@, nn));
                        assert(bm_bit(post.l0@, nn) == bm_bit(pre.l0@, nn));
                    } else {
                        // the cleared id's own group still has a bit, so l1 kept bit g
                        let p = scan1->Some_0;
                        assert(bm_bit(post.l2@, (g as nat) * 256 + ((p as nat) - (g as nat) * 256) as nat));
                        assert(bm_bit(post.l1@, g as nat) == exists|b: nat|
                            b < 256 && #[trigger] bm_bit(post.l2@, g as nat * 256 + b));
                        assert(bm_bit(post.l1@, nn * 256 + (g as nat % 256)));
                        assert(bm_bit(pre.l1@, g as nat) == bm_bit(post.l1@, g as nat));
                        assert(bm_bit(pre.l0@, nn));
                        assert(bm_bit(post.l0@, nn) == bm_bit(pre.l0@, nn));
                    }
                } else {
                    assert forall|b: nat| b < 256 implies #[trigger] bm_bit(post.l1@, nn * 256
                        + b) == bm_bit(pre.l1@, nn * 256 + b) by {
                        lemma_child_pos(nn, b, 256);
                        assert(nn * 256 + b != g as nat);
                    }
                    lemma_exists_eq(pre.l1@, post.l1@, nn);
                    assert(bm_bit(post.l0@, nn) == bm_bit(pre.l0@, nn));
                }
            }
            assert(post@ =~= pre@.remove(id));
        }
    }


    /// A clear level-1 bit means no populated id in that group.
    proof fn no_ids_in_group(&self, gk: nat)
        requires
            self.wf(),
            gk < 0x10000,
            !bm_bit(self.l1@, gk),
        ensures
            forall|k: u32| k as nat / 256 == gk ==> !bm_bit(self.l2@, k as nat),
    {
        assert forall|k: u32| k as nat / 256 == gk implies !bm_bit(self.l2@, k as nat) by {
            vstd::arithmetic::div_mod::lemma_fundamental_div_mod(k as int, 256);
            assert(k as nat == gk * 256 + (k as nat % 256));
            assert(!bm_bit(self.l2@, gk * 256 + (k as nat % 256)));
        }
    }

    /// A clear level-0 bit means no populated id under that top node.
    proof fn no_ids_in_topnode(&self, tk: nat)
        requires
            self.wf(),
            tk < 256,
            !bm_bit(self.l0@, tk),
        ensures
            forall|k: u32| k as nat / 65536 == tk ==> !bm_bit(self.l2@, k as nat),
    {
        assert forall|k: u32| k as nat / 65536 == tk implies !bm_bit(self.l2@, k as nat) by {
            lemma_id_div_any(k as nat);
            let gk = k as nat / 256;
            assert(gk == tk * 256 + (gk % 256));
            assert(!bm_bit(self.l1@, tk * 256 + (gk % 256)));
            self.no_ids_in_group(gk);
        }
    }

    /// The nearest populated id strictly below `id` (descending) or strictly
    /// above it (ascending). `None` means no populated bin remains on that
    /// side: liquidity there is exhausted.
    pub fn find_first(&self, descending: bool, id: u32) -> (r: Option<u32>)
        requires
            self.wf(),
            id < ID_SPACE,
        ensures
            match r {
                Some(j) => j < ID_SPACE && self@.contains(j) && (descending ==> j < id) && (
                !descending ==> j > id) && forall|k: u32|
                    (if descending {
                        j < k < id
                    } else {
                        id < k < j
                    }) ==> !self@.contains(k),
                None => forall|k: u32|
                    (if descending {
                        k < id
                    } else {
                        id < k < ID_SPACE
                    }) ==> !self@.contains(k),
            },
    {
        if descending {
            self.find_below(id)
        } else {
            self.find_above(id)
        }
    }

    /// The highest populated id strictly below `id`.
    fn find_below(&self, id: u32) -> (r: Option<u32>)
        requires
            self.wf(),
            id < ID_SPACE,
        ensures
            match r {
                Some(j) => j < id && self@.contains(j) && forall|k: u32|
                    j < k < id ==> !self@.contains(k),
                None => forall|k: u32| k < id ==> !self@.contains(k),
            },
    {
        proof {
            lemma_id_div(id as nat);
            lemma_word_bounds();
        }
        let g: u32 = id / 256;
        let n2: u32 = id / 65536;
        if let Some(b) = bm_scan_desc(&self.l2, g * 256, id) {
            proof {
                self.lemma_below_from(b as nat, id as nat, g as nat, g as nat, 0, 0);
            }
            return Some(b);
        }
        if let Some(gb) = bm_scan_desc(&self.l1, n2 * 256, g) {
            proof {
                lemma_node_bound(gb as nat, 0x10000, 262144);
            }
            let r2 = bm_scan_desc(&self.l2, gb * 256, gb * 256 + 256);
            match r2 {
                Some(b) => {
                    proof {
                        self.lemma_below_from(b as nat, id as nat, g as nat, gb as nat, 0, 1);
                    }
                    return Some(b);
                },
                None => {
                    proof {
                        assert(bm_bit(self.l1@, gb as nat));
                        let b0 = choose|bb: nat|
                            bb < 256 && #[trigger] bm_bit(self.l2@, (gb as nat) * 256 + bb);
                        assert(false);
                    }
                    return None;
                },
            }
        }
        if let Some(nb) = bm_scan_desc(&self.l0, 0, n2) {
            proof {
                lemma_node_bound(nb as nat, 256, 1024);
            }
            let r1 = bm_scan_desc(&self.l1, nb * 256, nb * 256 + 256);
            let gb2: u32 = match r1 {
                Some(x) => x,
                None => {
                    proof {
                        assert(bm_bit(self.l0@, nb as nat));
                        let b0 = choose|bb: nat|
                            bb < 256 && #[trigger] bm_bit(self.l1@, (nb as nat) * 256 + bb);
                        assert(false);
                    }
                    return None;
                },
            };
            proof {
                lemma_node_bound(gb2 as nat, 0x10000, 262144);
            }
            let r2 = bm_scan_desc(&self.l2, gb2 * 256, gb2 * 256 + 256);
            match r2 {
                Some(b) => {
                    proof {
                        self.lemma_below_from(
                            b as nat,
                            id as nat,
                            g as nat,
                            gb2 as nat,
                            nb as nat,
                            2,
                        );
                    }
                    return Some(b);
                },
                None => {
                    proof {
                        assert(bm_bit(self.l1@, gb2 as nat));
                        let b0 = choose|bb: nat|
                            bb < 256 && #[trigger] bm_bit(self.l2@, (gb2 as nat) * 256 + bb);
                        assert(false);
                    }
                    return None;
                },
            }
        }
        proof {
            assert forall|k: u32| k < id implies !self@.contains(k) by {
                lemma_id_div_any(k as nat);
                let gk = k as nat / 256;
                let tk = k as nat / 65536;
                vstd::arithmetic::div_mod::lemma_div_is_ordered(k as int, id as int, 256);
                vstd::arithmetic::div_mod::lemma_div_is_ordered(k as int, id as int, 65536);
                if tk < n2 as nat {
                    self.no_ids_in_topnode(tk);
                } else if gk < g as nat {
                    assert(!bm_bit(self.l1@, gk));
                    self.no_ids_in_group(gk);
                } else {
                    assert(gk == g as nat);
                    vstd::arithmetic::div_mod::lemma_fundamental_div_mod(k as int, 256);
                    assert((k as nat) >= (g as nat) * 256);
                    assert(!bm_bit(self.l2@, k as nat));
                }
            }
        }
        None
    }

    /// Gap proof for the descending search: every id strictly between the
    /// answer `b` and the start `id` is unpopulated. `depth` says which level
    /// supplied the answer.
    proof fn lemma_below_from(&self, b: nat, id: nat, g: nat, gb: nat, nb: nat, depth: int)
        requires
            self.wf(),
            id < 0x1000000,
            g == id / 256,
            b < id,
            bm_bit(self.l2@, b),
            gb == b / 256,
            0 <= depth <= 2,
            depth == 0 ==> gb == g && (forall|q: nat| b < q < id ==> !(#[trigger] bm_bit(self.l2@, q))),
            depth >= 1 ==> gb < g && (forall|q: nat| b < q < gb * 256 + 256 ==> !(#[trigger] bm_bit(self.l2@, q))) && (forall|q: nat| g * 256 <= q < id ==> !(#[trigger] bm_bit(self.l2@, q))),
            depth == 1 ==> gb / 256 == g / 256 && (forall|q: nat| gb < q < g ==> !(#[trigger] bm_bit(self.l1@, q))),
            depth == 2 ==> nb == gb / 256 && nb < g / 256 && (forall|q: nat| gb < q < nb * 256 + 256 ==> !(#[trigger] bm_bit(self.l1@, q))) && (forall|q: nat| nb < q < g / 256 ==> !(#[trigger] bm_bit(self.l0@, q))) && (forall|q: nat| (g / 256) * 256 <= q < g ==> !(#[trigger] bm_bit(self.l1@, q))),
        ensures
            forall|k: u32| b < k < id ==> !self@.contains(k),
    {
        assert forall|k: u32| b < k < id implies !self@.contains(k) by {
            lemma_id_div_any(k as nat);
            lemma_id_div_any(b);
            lemma_id_div(id);
            let gk = k as nat / 256;
            let tk = k as nat / 65536;
            vstd::arithmetic::div_mod::lemma_div_is_ordered(k as int, id as int, 256);
            vstd::arithmetic::div_mod::lemma_div_is_ordered(b as int, k as int, 256);
            vstd::arithmetic::div_mod::lemma_div_is_ordered(k as int, id as int, 65536);
            vstd::arithmetic::div_mod::lemma_div_is_ordered(b as int, k as int, 65536);
            if depth == 0 {
                assert(!bm_bit(self.l2@, k as nat));
            } else if gk == gb {
                assert((k as nat) < gb * 256 + 256);
                assert(!bm_bit(self.l2@, k as nat));
            } else if gk == g {
                assert((k as nat) >= g * 256);
                assert(!bm_bit(self.l2@, k as nat));
            } else {
                assert(gb < gk && gk < g);
                if depth == 1 {
                    assert(!bm_bit(self.l1@, gk));
                    self.no_ids_in_group(gk);
                } else {
                    assert(tk == gk / 256);
                    assert(gb / 256 <= tk && tk <= g / 256);
                    if tk == nb {
                        assert(gk < nb * 256 + 256);
                        assert(!bm_bit(self.l1@, gk));
                        self.no_ids_in_group(gk);
                    } else if tk == g / 256 {
                        assert(gk >= (g / 256) * 256);
                        assert(!bm_bit(self.l1@, gk));
                        self.no_ids_in_group(gk);
                    } else {
                        assert(nb < tk && tk < g / 256);
                        assert(!bm_bit(self.l0@, tk));
                        self.no_ids_in_topnode(tk);
                    }
                }
            }
        }
    }

    /// The lowest populated id strictly above `id`.
    fn find_above(&self, id: u32) -> (r: Option<u32>)
        requires
            self.wf(),
            id < ID_SPACE,
        ensures
            match r {
                Some(j) => id < j < ID_SPACE && self@.contains(j) && forall|k: u32|
                    id < k < j ==> !self@.contains(k),
                None => forall|k: u32| id < k < ID_SPACE ==> !self@.contains(k),
            },
    {
        proof {
            lemma_id_div(id as nat);
            lemma_word_bounds();
            lemma_node_bound(id as nat / 256, 0x10000, 262144);
            lemma_node_bound(id as nat / 65536, 256, 1024);
        }
        let g: u32 = id / 256;
        let n2: u32 = id / 65536;
        if let Some(b) = bm_scan_asc(&self.l2, id + 1, g * 256 + 256) {
            proof {
                self.lemma_above_from(b as nat, id as nat, g as nat, g as nat, 0, 0);
            }
            return Some(b);
        }
        if let Some(gb) = bm_scan_asc(&self.l1, g + 1, n2 * 256 + 256) {
            proof {
                lemma_node_bound(gb as nat, 0x10000, 262144);
            }
            let r2 = bm_scan_asc(&self.l2, gb * 256, gb * 256 + 256);
            match r2 {
                Some(b) => {
                    proof {
                        self.lemma_above_from(b as nat, id as nat, g as nat, gb as nat, 0, 1);
                    }
                    return Some(b);
                },
                None => {
                    proof {
                        assert(bm_bit(self.l1@, gb as nat));
                        let b0 = choose|bb: nat|
                            bb < 256 && #[trigger] bm_bit(self.l2@, (gb as nat) * 256 + bb);
                        assert(false);
                    }
                    return None;
                },
            }
        }
        if let Some(nb) = bm_scan_asc(&self.l0, n2 + 1, 256) {
            proof {
                lemma_node_bound(nb as nat, 256, 1024);
            }
            let r1 = bm_scan_asc(&self.l1, nb * 256, nb * 256 + 256);
            let gb2: u32 = match r1 {
                Some(x) => x,
                None => {
                    proof {
                        assert(bm_bit(self.l0@, nb as nat));
                        let b0 = choose|bb: nat|
                            bb < 256 && #[trigger] bm_bit(self.l1@, (nb as nat) * 256 + bb);
                        assert(false);
                    }
                    return None;
                },
            };
            proof {
                lemma_node_bound(gb2 as nat, 0x10000, 262144);
            }
            let r2 = bm_scan_asc(&self.l2, gb2 * 256, gb2 * 256 + 256);
            match r2 {
                Some(b) => {
                    proof {
                        self.lemma_above_from(
                            b as nat,
                            id as nat,
                            g as nat,
                            gb2 as nat,
                            nb as nat,
                            2,
                        );
                    }
                    return Some(b);
                },
                None => {
                    proof {
                        assert(bm_bit(self.l1@, gb2 as nat));
                        let b0 = choose|bb: nat|
                            bb < 256 && #[trigger] bm_bit(self.l2@, (gb2 as nat) * 256 + bb);
                        assert(false);
                    }
                    return None;
                },
            }
        }
        proof {
            assert forall|k: u32| id < k < ID_SPACE implies !self@.contains(k) by {
                lemma_id_div_any(k as nat);
                let gk = k as nat / 256;
                let tk = k as nat / 65536;
                vstd::arithmetic::div_mod::lemma_div_is_ordered(id as int, k as int, 256);
                vstd::arithmetic::div_mod::lemma_div_is_ordered(id as int, k as int, 65536);
                if tk > n2 as nat {
                    self.no_ids_in_topnode(tk);
                } else if gk > g as nat {
                    assert(tk == n2 as nat);
                    assert(gk < (n2 as nat) * 256 + 256);
                    assert(!bm_bit(self.l1@, gk));
                    self.no_ids_in_group(gk);
                } else {
                    assert(gk == g as nat);
                    vstd::arithmetic::div_mod::lemma_fundamental_div_mod(k as int, 256);
                    assert((k as nat) < (g as nat) * 256 + 256);
                    assert(!bm_bit(self.l2@, k as nat));
                }
            }
        }
        None
    }

    /// Gap proof for the ascending search, mirroring `lemma_below_from`.
    proof fn lemma_above_from(&self, b: nat, id: nat, g: nat, gb: nat, nb: nat, depth: int)
        requires
            self.wf(),
            id < 0x1000000,
            g == id / 256,
            b < 0x1000000,
            b > id,
            bm_bit(self.l2@, b),
            gb == b / 256,
            0 <= depth <= 2,
            depth == 0 ==> gb == g && (forall|q: nat| id < q < b ==> !(#[trigger] bm_bit(self.l2@, q))),
            depth >= 1 ==> gb > g && (forall|q: nat| gb * 256 <= q < b ==> !(#[trigger] bm_bit(self.l2@, q))) && (forall|q: nat| id < q < g * 256 + 256 ==> !(#[trigger] bm_bit(self.l2@, q))),
            depth == 1 ==> gb / 256 == g / 256 && (forall|q: nat| g < q < gb ==> !(#[trigger] bm_bit(self.l1@, q))),
            depth == 2 ==> nb == gb / 256 && nb > g / 256 && (forall|q: nat| nb * 256 <= q < gb ==> !(#[trigger] bm_bit(self.l1@, q))) && (forall|q: nat| g / 256 < q < nb ==> !(#[trigger] bm_bit(self.l0@, q))) && (forall|q: nat| g < q < (g / 256) * 256 + 256 ==> !(#[trigger] bm_bit(self.l1@, q))),
        ensures
            forall|k: u32| id < k < b ==> !self@.contains(k),
    {
        assert forall|k: u32| id < k < b implies !self@.contains(k) by {
            lemma_id_div_any(k as nat);
            lemma_id_div_any(b);
            lemma_id_div(id);
            let gk = k as nat / 256;
            let tk = k as nat / 65536;
            vstd::arithmetic::div_mod::lemma_div_is_ordered(id as int, k as int, 256);
            vstd::arithmetic::div_mod::lemma_div_is_ordered(k as int, b as int, 256);
            vstd::arithmetic::div_mod::lemma_div_is_ordered(id as int, k as int, 65536);
            vstd::arithmetic::div_mod::lemma_div_is_ordered(k as int, b as int, 65536);
            if depth == 0 {
                assert(!bm_bit(self.l2@, k as nat));
            } else if gk == gb {
                assert((k as nat) >= gb * 256);
                assert(!bm_bit(self.l2@, k as nat));
            } else if gk == g {
                assert((k as nat) < g * 256 + 256);
                assert(!bm_bit(self.l2@, k as nat));
            } else {
                assert(g < gk && gk < gb);
                if depth == 1 {
                    assert(!bm_bit(self.l1@, gk));
                    self.no_ids_in_group(gk);
                } else {
                    assert(tk == gk / 256);
                    assert(g / 256 <= tk && tk <= gb / 256);
                    if tk == nb {
                        assert(gk >= nb * 256);
                        assert(!bm_bit(self.l1@, gk));
                        self.no_ids_in_group(gk);
                    } else if tk == g / 256 {
                        assert(gk < (g / 256) * 256 + 256);
                        assert(!bm_bit(self.l1@, gk));
                        self.no_ids_in_group(gk);
                    } else {
                        assert(g / 256 < tk && tk < nb);
                        assert(!bm_bit(self.l0@, tk));
                        self.no_ids_in_topnode(tk);
                    }
                }
            }
        }
    }

}

/// If a child node's bits are unchanged, so is "some bit is set in it".
proof fn lemma_exists_eq(pre: Seq<u64>, post: Seq<u64>, g: nat)
    requires
        forall|b: nat| b < 256 ==> #[trigger] bm_bit(post, g * 256 + b) == bm_bit(pre, g * 256 + b),
    ensures
        (exists|b: nat| b < 256 && #[trigger] bm_bit(post, g * 256 + b)) == (exists|b: nat|
            b < 256 && #[trigger] bm_bit(pre, g * 256 + b)),
{
    if exists|b: nat| b < 256 && #[trigger] bm_bit(pre, g * 256 + b) {
        let b0 = choose|b: nat| b < 256 && #[trigger] bm_bit(pre, g * 256 + b);
        assert(bm_bit(post, g * 256 + b0));
    }
    if exists|b: nat| b < 256 && #[trigger] bm_bit(post, g * 256 + b) {
        let b0 = choose|b: nat| b < 256 && #[trigger] bm_bit(post, g * 256 + b);
        assert(bm_bit(pre, g * 256 + b0));
    }
}

/// Positions below `words * 64` land in the first `words` words.
proof fn lemma_word_bounds()
    ensures
        forall|q: nat| q < 256 ==> #[trigger] (q / 64) < 4,
        forall|q: nat| q < 0x10000 ==> #[trigger] (q / 64) < 1024,
        forall|q: nat| q < 0x1000000 ==> #[trigger] (q / 64) < 262144,
{
    assert forall|q: nat| q < 0x1000000 implies #[trigger] (q / 64) < 262144 by {
        vstd::arithmetic::div_mod::lemma_fundamental_div_mod(q as int, 64);
    }
    assert forall|q: nat| q < 0x10000 implies #[trigger] (q / 64) < 1024 by {
        vstd::arithmetic::div_mod::lemma_fundamental_div_mod(q as int, 64);
    }
    assert forall|q: nat| q < 256 implies #[trigger] (q / 64) < 4 by {
        vstd::arithmetic::div_mod::lemma_fundamental_div_mod(q as int, 64);
    }
}

/// Scanning a whole node stays inside the level's word vector.
proof fn lemma_node_bound(gb: nat, limit: nat, words: nat)
    requires
        gb < limit,
        limit * 4 == words,
    ensures
        (gb * 256 + 256) / 64 <= words,
        (gb * 256 + 256) % 64 == 0,
        (gb * 256) % 64 == 0,
        (gb * 256) / 64 == gb * 4,
        forall|q: nat| gb * 256 <= q < gb * 256 + 256 ==> #[trigger] (q / 64) < words,
{
    vstd::arithmetic::div_mod::lemma_fundamental_div_mod_converse(
        (gb * 256 + 256) as int,
        64,
        (gb * 4 + 4) as int,
        0,
    );
    vstd::arithmetic::div_mod::lemma_fundamental_div_mod_converse(
        (gb * 256) as int,
        64,
        (gb * 4) as int,
        0,
    );
    assert(gb * 4 + 4 <= words) by (nonlinear_arith)
        requires
            gb < limit,
            limit * 4 == words,
    ;
    assert forall|q: nat| gb * 256 <= q < gb * 256 + 256 implies #[trigger] (q / 64) < words by {
        vstd::arithmetic::div_mod::lemma_div_is_ordered(q as int, (gb * 256 + 255) as int, 64);
        vstd::arithmetic::div_mod::lemma_fundamental_div_mod_converse(
            (gb * 256 + 255) as int,
            64,
            (gb * 4 + 3) as int,
            63,
        );
    }
}

/// Splits any value into group and top-node coordinates.
proof fn lemma_id_div_any(id: nat)
    ensures
        (id / 256) * 256 + id % 256 == id,
        id % 256 < 256,
        (id / 256) / 256 == id / 65536,
        (id / 65536) * 256 + (id / 256) % 256 == id / 256,
        (id / 256) % 256 < 256,
        id < 0x1000000 ==> id / 256 < 0x10000 && id / 65536 < 256 && id / 64 < 262144,
{
    vstd::arithmetic::div_mod::lemma_fundamental_div_mod(id as int, 256);
    vstd::arithmetic::div_mod::lemma_fundamental_div_mod(id as int / 256, 256);
    vstd::arithmetic::div_mod::lemma_div_denominator(id as int, 256, 256);
    vstd::arithmetic::div_mod::lemma_fundamental_div_mod(id as int, 64);
    vstd::arithmetic::div_mod::lemma_fundamental_div_mod(id as int, 65536);
}

/// Splits an id into its group and top-node coordinates.
proof fn lemma_id_div(id: nat)
    requires
        id < 0x1000000,
    ensures
        id / 256 < 0x10000,
        id / 65536 < 256,
        (id / 256) * 256 + id % 256 == id,
        id % 256 < 256,
        (id / 256) / 256 == id / 65536,
        (id / 65536) * 256 + (id / 256) % 256 == id / 256,
        (id / 256) % 256 < 256,
        id / 256 / 64 < 4096,
        id / 64 < 262144,
        id / 65536 / 64 < 4,
        (id / 65536) * 65536 <= id,
{
    vstd::arithmetic::div_mod::lemma_fundamental_div_mod(id as int, 256);
    vstd::arithmetic::div_mod::lemma_fundamental_div_mod(id as int / 256, 256);
    vstd::arithmetic::div_mod::lemma_div_denominator(id as int, 256, 256);
    vstd::arithmetic::div_mod::lemma_fundamental_div_mod(id as int, 64);
    vstd::arithmetic::div_mod::lemma_fundamental_div_mod(id as int / 256, 64);
    vstd::arithmetic::div_mod::lemma_fundamental_div_mod(id as int / 65536, 64);
    vstd::arithmetic::div_mod::lemma_fundamental_div_mod(id as int, 65536);
}

/// A child position `g * 256 + b` has group `g` and offset `b`.
proof fn lemma_child_pos(g: nat, b: nat, fanout: nat)
    requires
        b < fanout,
        fanout == 256,
    ensures
        (g * 256 + b) / 256 == g,
        (g * 256 + b) % 256 == b,
{
    vstd::arithmetic::div_mod::lemma_fundamental_div_mod_converse(
        (g * 256 + b) as int,
        256,
        g as int,
        b as int,
    );
}

/// Every id in group `g` is `g * 256 + (id % 256)`.
proof fn lemma_group_cover(g: nat)
    ensures
        forall|q: nat| #[trigger] (q / 256) == g ==> q == g * 256 + (q % 256) && q % 256 < 256,
{
    assert forall|q: nat| #[trigger] (q / 256) == g implies q == g * 256 + (q % 256) && q % 256 < 256 by {
        vstd::arithmetic::div_mod::lemma_fundamental_div_mod(q as int, 256);
    }
}

/// An id inserted and then removed is gone: the tree no longer contains it,
/// and a nearest-bin search can never return it, because a search only ever
/// returns ids the tree contains.
pub proof fn lemma_insert_then_remove_absent(s: Set<u32>, id: u32, found: u32)
    ensures
        !s.insert(id).remove(id).contains(id),
        s.insert(id).remove(id).contains(found) ==> found != id,
{
}

} // verus!

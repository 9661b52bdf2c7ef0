//! A binary Huffman code tree: each bit read picks the left (0) or right
//! (1) child, and a symbol sits where a code ends.
use vstd::arithmetic::power2::{lemma2_to64, lemma_pow2_pos, lemma_pow2_strictly_increases, pow2};
use vstd::prelude::*;

use super::codes::{
    canonical_code,
    count_len,
    first_code,
    kraft,
    lemma_count_le,
    lemma_first_code_bound,
    lemma_kraft_codes_fit,
};
use super::stream::Stream;

verus! {

#[derive(Debug)]
pub struct HuffmanNode {
    left: Option<Box<HuffmanNode>>,
    right: Option<Box<HuffmanNode>>,
    symb: Option<char>,
}

/// The symbol at the end of `path` from `node`: `None` where the path
/// leaves the tree or ends at a node without a symbol.
pub closed spec fn node_lookup(node: HuffmanNode, path: Seq<bool>) -> Option<char>
    decreases node,
{
    if path.len() == 0 {
        node.symb
    } else {
        let child = if path[0] {
            node.right
        } else {
            node.left
        };
        match child {
            None => None,
            Some(c) => node_lookup(*c, path.drop_first()),
        }
    }
}

/// Decoding from `node` with `bits[p..]`: follow one bit per step while the
/// node has a child, and give the symbol of the node reached together with
/// the position after the bits used. `None` where the bits run out or
/// lead to a missing child.
pub closed spec fn node_decode(node: HuffmanNode, bits: Seq<bool>, p: int) -> Option<(Option<char>, int)>
    decreases node,
{
    if node.left.is_none() && node.right.is_none() {
        Some((node.symb, p))
    } else if p < 0 || p >= bits.len() {
        None
    } else {
        let child = if bits[p] {
            node.right
        } else {
            node.left
        };
        match child {
            None => None,
            Some(c) => node_decode(*c, bits, p + 1),
        }
    }
}

/// The node reached from `node` by following `path` (a set bit picks the
/// right child); `None` where the path leaves the tree.
pub closed spec fn node_at(node: HuffmanNode, path: Seq<bool>) -> Option<HuffmanNode>
    decreases node,
{
    if path.len() == 0 {
        Some(node)
    } else {
        let child = if path[0] {
            node.right
        } else {
            node.left
        };
        match child {
            None => None,
            Some(c) => node_at(*c, path.drop_first()),
        }
    }
}

/// `path` leads from `node` to a node with a child.
pub closed spec fn node_inner(node: HuffmanNode, path: Seq<bool>) -> bool {
    match node_at(node, path) {
        Some(n) => n.left.is_some() || n.right.is_some(),
        None => false,
    }
}

/// `path` leads from `node` to a node without children, where decoding
/// stops.
pub closed spec fn node_leaf(node: HuffmanNode, path: Seq<bool>) -> bool {
    match node_at(node, path) {
        Some(n) => n.left.is_none() && n.right.is_none(),
        None => false,
    }
}

/// `a` is a prefix of `b` and shorter than it.
pub open spec fn is_proper_prefix(a: Seq<bool>, b: Seq<bool>) -> bool {
    a.len() < b.len() && b.subrange(0, a.len() as int) == a
}

/// The `n` low bits of `code`, most significant first.
pub open spec fn code_path(code: u64, n: int) -> Seq<bool> {
    Seq::new(n as nat, |i: int| (code >> ((n - 1 - i) as u64)) & 1u64 == 1u64)
}

impl HuffmanNode {
    /// A node without children or symbol.
    pub closed spec fn is_empty(&self) -> bool {
        self.left.is_none() && self.right.is_none() && self.symb.is_none()
    }

    /// A node without children or symbol.
    pub fn new() -> (r: Self)
        ensures
            r.is_empty(),
    {
        Self { left: None, right: None, symb: None }
    }
}

proof fn lemma_empty_lookup(node: HuffmanNode, path: Seq<bool>)
    requires
        node.is_empty(),
    ensures
        node_lookup(node, path) is None,
{
}

proof fn lemma_empty_shape(node: HuffmanNode, path: Seq<bool>)
    requires
        node.is_empty(),
    ensures
        !node_inner(node, path),
        node_leaf(node, path) == (path.len() == 0),
{
}

/// Two paths that start with the same step agree, and one is a proper
/// prefix of the other, exactly when the rests after that step do.
proof fn lemma_cons_prefix(path: Seq<bool>, q: Seq<bool>)
    requires
        path.len() > 0,
        q.len() > 0,
        path[0] == q[0],
    ensures
        (path == q) == (path.drop_first() == q.drop_first()),
        is_proper_prefix(path, q) == is_proper_prefix(path.drop_first(), q.drop_first()),
{
    let r = path.drop_first();
    let rq = q.drop_first();
    if r == rq {
        assert(path =~= q) by {
            assert forall|k: int| 0 <= k < path.len() implies path[k] == q[k] by {
                if k > 0 {
                    assert(path[k] == r[k - 1]);
                    assert(q[k] == rq[k - 1]);
                }
            }
        }
    }
    if path == q {
        assert(r =~= rq);
    }
    if is_proper_prefix(path, q) {
        assert(rq.subrange(0, r.len() as int) =~= r) by {
            assert forall|k: int| 0 <= k < r.len() implies rq.subrange(0, r.len() as int)[k] == r[k] by {
                assert(q.subrange(0, path.len() as int)[k + 1] == path[k + 1]);
            }
        }
    }
    if is_proper_prefix(r, rq) {
        assert(q.subrange(0, path.len() as int) =~= path) by {
            assert forall|k: int| 0 <= k < path.len() implies q.subrange(0, path.len() as int)[k] == path[k] by {
                if k > 0 {
                    assert(rq.subrange(0, r.len() as int)[k - 1] == r[k - 1]);
                }
            }
        }
    }
}

proof fn lemma_bit_01(code: u64, k: u64)
    by (bit_vector)
    ensures
        (code >> k) & 1u64 <= 1u64,
{
}

/// Stores `symb` at the end of `code_path(code, n)[i..]` from `node`,
/// making the nodes missing on the way.
fn insert_node(node: &mut HuffmanNode, code: u64, n: usize, i: usize, symb: char)
    requires
        i <= n <= 64,
    ensures
        forall|path: Seq<bool>|
            #[trigger] node_lookup(*final(node), path) == if path == code_path(code, n as int).skip(
                i as int,
            ) {
                Some(symb)
            } else {
                node_lookup(*old(node), path)
            },
        forall|path: Seq<bool>|
            #[trigger] node_inner(*final(node), path) == (is_proper_prefix(
                path,
                code_path(code, n as int).skip(i as int),
            ) || node_inner(*old(node), path)),
        forall|path: Seq<bool>|
            #[trigger] node_leaf(*final(node), path) == if path == code_path(code, n as int).skip(
                i as int,
            ) {
                !node_inner(*old(node), path)
            } else if is_proper_prefix(path, code_path(code, n as int).skip(i as int)) {
                false
            } else {
                node_leaf(*old(node), path)
            },
    decreases n - i,
{
    let ghost cp = code_path(code, n as int);
    if i == n {
        node.symb = Some(symb);
        proof {
            assert forall|path: Seq<bool>|
                node_at(*node, path) is Some == node_at(*old(node), path) is Some && (
                path.len() > 0 ==> node_at(*node, path) == node_at(*old(node), path)) by {}
            assert forall|path: Seq<bool>| #[trigger] node_inner(*node, path) == node_inner(*old(node), path)
                && node_leaf(*node, path) == node_leaf(*old(node), path) by {
                if path.len() == 0 {
                }
            }
            assert(cp.skip(i as int) =~= Seq::<bool>::empty());
            assert forall|path: Seq<bool>| #[trigger] node_lookup(*node, path) == if path == cp.skip(i as int) {
                Some(symb)
            } else {
                node_lookup(*old(node), path)
            } by {
                if path.len() == 0 {
                    assert(path =~= cp.skip(i as int));
                }
            }
        }
        return;
    }
    let bit = ((code >> ((n - i - 1) as u64)) & 1) as u8;
    proof {
        lemma_bit_01(code, (n - i - 1) as u64);
    }
    if bit == 1 {
        let ghost old_child = node.right;
        let mut child = match node.right.take() {
            Some(b) => *b,
            None => HuffmanNode::new(),
        };
        let ghost before = child;
        insert_node(&mut child, code, n, i + 1, symb);
        node.right = Some(Box::new(child));
        proof {
            lemma_insert_step(*old(node), *node, before, child, cp, i as int, true, symb);
            lemma_insert_step_shape(*old(node), *node, before, child, cp, i as int, true);
        }
    } else {
        let ghost old_child = node.left;
        let mut child = match node.left.take() {
            Some(b) => *b,
            None => HuffmanNode::new(),
        };
        let ghost before = child;
        insert_node(&mut child, code, n, i + 1, symb);
        node.left = Some(Box::new(child));
        proof {
            lemma_insert_step(*old(node), *node, before, child, cp, i as int, false, symb);
            lemma_insert_step_shape(*old(node), *node, before, child, cp, i as int, false);
        }
    }
}

proof fn lemma_insert_step(
    old_node: HuffmanNode,
    new_node: HuffmanNode,
    before: HuffmanNode,
    after: HuffmanNode,
    cp: Seq<bool>,
    i: int,
    side: bool,
    symb: char,
)
    requires
        0 <= i < cp.len(),
        cp[i] == side,
        new_node.symb == old_node.symb,
        side ==> new_node.left == old_node.left && new_node.right == Some(Box::new(after)),
        !side ==> new_node.right == old_node.right && new_node.left == Some(Box::new(after)),
        side ==> (match old_node.right {
            Some(b) => *b == before,
            None => before.left.is_none() && before.right.is_none() && before.symb.is_none(),
        }),
        !side ==> (match old_node.left {
            Some(b) => *b == before,
            None => before.left.is_none() && before.right.is_none() && before.symb.is_none(),
        }),
        forall|path: Seq<bool>|
            #[trigger] node_lookup(after, path) == if path == cp.skip(i + 1) {
                Some(symb)
            } else {
                node_lookup(before, path)
            },
    ensures
        forall|path: Seq<bool>|
            #[trigger] node_lookup(new_node, path) == if path == cp.skip(i) {
                Some(symb)
            } else {
                node_lookup(old_node, path)
            },
{
    assert forall|path: Seq<bool>| #[trigger] node_lookup(new_node, path) == if path == cp.skip(i) {
        Some(symb)
    } else {
        node_lookup(old_node, path)
    } by {
        if path.len() == 0 {
            assert(path != cp.skip(i));
        } else {
            let rest = path.drop_first();
            assert(node_lookup(after, rest) == if rest == cp.skip(i + 1) {
                Some(symb)
            } else {
                node_lookup(before, rest)
            });
            if path[0] == side {
                if side {
                    if old_node.right.is_none() {
                        lemma_empty_lookup(before, rest);
                    }
                } else {
                    if old_node.left.is_none() {
                        lemma_empty_lookup(before, rest);
                    }
                }
                assert((path == cp.skip(i)) == (rest == cp.skip(i + 1))) by {
                    if rest == cp.skip(i + 1) {
                        assert forall|k: int| 0 <= k < path.len() implies path[k] == cp.skip(i)[k] by {
                            if k > 0 {
                                assert(path[k] == rest[k - 1]);
                            }
                        }
                        assert(path =~= cp.skip(i));
                    }
                    if path == cp.skip(i) {
                        assert(rest =~= cp.skip(i + 1));
                    }
                }
            } else {
                assert(path != cp.skip(i)) by {
                    assert(cp.skip(i)[0] == cp[i]);
                }
            }
        }
    }
}

proof fn lemma_insert_step_shape(
    old_node: HuffmanNode,
    new_node: HuffmanNode,
    before: HuffmanNode,
    after: HuffmanNode,
    cp: Seq<bool>,
    i: int,
    side: bool,
)
    requires
        0 <= i < cp.len(),
        cp[i] == side,
        side ==> new_node.left == old_node.left && new_node.right == Some(Box::new(after)),
        !side ==> new_node.right == old_node.right && new_node.left == Some(Box::new(after)),
        side ==> (match old_node.right {
            Some(b) => *b == before,
            None => before.is_empty(),
        }),
        !side ==> (match old_node.left {
            Some(b) => *b == before,
            None => before.is_empty(),
        }),
        forall|path: Seq<bool>|
            #[trigger] node_inner(after, path) == (is_proper_prefix(path, cp.skip(i + 1)) || node_inner(
                before,
                path,
            )),
        forall|path: Seq<bool>|
            #[trigger] node_leaf(after, path) == if path == cp.skip(i + 1) {
                !node_inner(before, path)
            } else if is_proper_prefix(path, cp.skip(i + 1)) {
                false
            } else {
                node_leaf(before, path)
            },
    ensures
        forall|path: Seq<bool>|
            #[trigger] node_inner(new_node, path) == (is_proper_prefix(path, cp.skip(i)) || node_inner(
                old_node,
                path,
            )),
        forall|path: Seq<bool>|
            #[trigger] node_leaf(new_node, path) == if path == cp.skip(i) {
                !node_inner(old_node, path)
            } else if is_proper_prefix(path, cp.skip(i)) {
                false
            } else {
                node_leaf(old_node, path)
            },
{
    let q = cp.skip(i);
    assert(q[0] == cp[i]);
    assert(q.drop_first() =~= cp.skip(i + 1));
    assert forall|path: Seq<bool>|
        #![trigger node_inner(new_node, path)]
        #![trigger node_leaf(new_node, path)]
        node_inner(new_node, path) == (is_proper_prefix(path, q) || node_inner(old_node, path))
            && node_leaf(new_node, path) == if path == q {
            !node_inner(old_node, path)
        } else if is_proper_prefix(path, q) {
            false
        } else {
            node_leaf(old_node, path)
        } by {
        if path.len() == 0 {
            assert(q.subrange(0, 0) =~= path);
            assert(is_proper_prefix(path, q));
        } else {
            let rest = path.drop_first();
            if path[0] == side {
                lemma_cons_prefix(path, q);
                assert(node_at(new_node, path) == node_at(after, rest));
                assert(node_inner(new_node, path) == node_inner(after, rest));
                assert(node_leaf(new_node, path) == node_leaf(after, rest));
                let oc = if side {
                    old_node.right
                } else {
                    old_node.left
                };
                match oc {
                    Some(b) => {
                        assert(node_at(old_node, path) == node_at(before, rest));
                    },
                    None => {
                        assert(node_at(old_node, path) is None);
                        lemma_empty_shape(before, rest);
                        if rest.len() == 0 {
                            assert(q.drop_first().subrange(0, 0) =~= rest);
                            if q.drop_first().len() == 0 {
                                assert(rest =~= q.drop_first());
                            }
                        }
                    },
                }
            } else {
                assert(node_at(new_node, path) == node_at(old_node, path));
                assert(path != q);
                assert(!is_proper_prefix(path, q)) by {
                    if is_proper_prefix(path, q) {
                        assert(q.subrange(0, path.len() as int)[0] == q[0]);
                    }
                }
            }
        }
    }
}

#[derive(Debug)]
pub struct HuffmanTree {
    root: HuffmanNode,
}

/// The symbols that inserting the canonical codes of `bl[0..m]` stores:
/// the symbol `alphabet[s]` of the last `s < m` with a code whose path is
/// `path`.
pub open spec fn canonical_lookup(alphabet: Seq<u8>, bl: Seq<u8>, m: int, path: Seq<bool>) -> Option<char>
    decreases m,
{
    if m <= 0 {
        None
    } else if bl[m - 1] != 0 && path == code_path(canonical_code(bl, m - 1) as u64, bl[m - 1] as int) {
        Some(alphabet[m - 1] as char)
    } else {
        canonical_lookup(alphabet, bl, m - 1, path)
    }
}

/// Whether, after inserting the canonical codes of `bl[0..m]`, `path`
/// leads to a node with a child: it is a proper prefix of one of those
/// codes.
pub open spec fn canonical_inner(bl: Seq<u8>, m: int, path: Seq<bool>) -> bool
    decreases m,
{
    if m <= 0 {
        false
    } else if bl[m - 1] != 0 && is_proper_prefix(
        path,
        code_path(canonical_code(bl, m - 1) as u64, bl[m - 1] as int),
    ) {
        true
    } else {
        canonical_inner(bl, m - 1, path)
    }
}

/// Whether, after inserting the canonical codes of `bl[0..m]` into a tree
/// that is a single node, `path` leads to a node without children.
pub open spec fn canonical_leaf(bl: Seq<u8>, m: int, path: Seq<bool>) -> bool
    decreases m,
{
    if m <= 0 {
        path.len() == 0
    } else if bl[m - 1] == 0 {
        canonical_leaf(bl, m - 1, path)
    } else {
        let q = code_path(canonical_code(bl, m - 1) as u64, bl[m - 1] as int);
        if path == q {
            !canonical_inner(bl, m - 1, path)
        } else if is_proper_prefix(path, q) {
            false
        } else {
            canonical_leaf(bl, m - 1, path)
        }
    }
}

impl HuffmanTree {
    /// `path` leads from the root to a node with a child.
    pub closed spec fn inner(&self, path: Seq<bool>) -> bool {
        node_inner(self.root, path)
    }

    /// `path` leads from the root to a node without children, where
    /// decoding stops.
    pub closed spec fn leaf(&self, path: Seq<bool>) -> bool {
        node_leaf(self.root, path)
    }

    /// The tree that inserting the canonical codes of the lengths `bl`
    /// builds, with the symbols of `alphabet`, for the symbols both lists
    /// reach: its symbols, and which paths end at a node with or without
    /// children.
    pub open spec fn is_canonical_tree(&self, alphabet: Seq<u8>, bl: Seq<u8>) -> bool {
        let m = if alphabet.len() < bl.len() {
            alphabet.len() as int
        } else {
            bl.len() as int
        };
        &&& forall|path: Seq<bool>| #[trigger] self.lookup(path) == canonical_lookup(alphabet, bl, m, path)
        &&& forall|path: Seq<bool>| #[trigger] self.inner(path) == canonical_inner(bl, m, path)
        &&& forall|path: Seq<bool>| #[trigger] self.leaf(path) == canonical_leaf(bl, m, path)
    }

    /// The symbol stored at the end of `path`.
    pub closed spec fn lookup(&self, path: Seq<bool>) -> Option<char> {
        node_lookup(self.root, path)
    }

    /// Decoding one symbol from `bits[p..]`: see `node_decode`.
    pub closed spec fn decode_at(&self, bits: Seq<bool>, p: int) -> Option<(Option<char>, int)> {
        node_decode(self.root, bits, p)
    }

    /// A tree that holds no symbol.
    pub fn new() -> (t: Self)
        ensures
            forall|path: Seq<bool>| #[trigger] t.lookup(path) is None,
            forall|bits: Seq<bool>, p: int| #[trigger] t.decode_at(bits, p) == Some((None::<char>, p)),
            forall|path: Seq<bool>| !#[trigger] t.inner(path),
            forall|path: Seq<bool>| #[trigger] t.leaf(path) == (path.len() == 0),
    {
        let t = Self { root: HuffmanNode::new() };
        proof {
            assert forall|path: Seq<bool>| #[trigger] t.lookup(path) is None by {
                lemma_empty_lookup(t.root, path);
            }
            assert forall|path: Seq<bool>|
                #![trigger t.inner(path)]
                #![trigger t.leaf(path)]
                !t.inner(path) && t.leaf(path) == (path.len() == 0) by {
                lemma_empty_shape(t.root, path);
            }
        }
        t
    }

    /// The tree of the canonical code (RFC 1951, section 3.2.2) of the code
    /// lengths `bl_list`, holding `alphabet[s]` under the code of each
    /// symbol `s` with a nonzero length, for the symbols both lists reach.
    pub fn from_alphabet_and_bl_list(alphabet: Vec<u8>, bl_list: Vec<u8>) -> (t: Self)
        requires
            bl_list@.len() > 0,
            forall|i: int| 0 <= i < bl_list@.len() ==> #[trigger] bl_list@[i] < bl_list@.len(),
            forall|i: int|
                0 <= i < bl_list@.len() ==> bl_list@.len() * pow2(#[trigger] bl_list@[i] as nat)
                    <= u64::MAX,
        ensures
            t.is_canonical_tree(alphabet@, bl_list@),
    {
        let ghost bl = bl_list@;
        let n = bl_list.len();
        let mut max_bits: u8 = bl_list[0];
        let mut i: usize = 1;
        while i < n
            invariant
                n == bl.len(),
                bl == bl_list@,
                1 <= i <= n,
                exists|k: int| 0 <= k < n && bl[k] == max_bits,
                forall|k: int| 0 <= k < i ==> bl[k] <= max_bits,
            decreases n - i,
        {
            if bl_list[i] > max_bits {
                max_bits = bl_list[i];
            }
            i += 1;
        }
        let ghost kmax = choose|k: int| 0 <= k < n && bl[k] == max_bits;
        proof {
            lemma_pow2_pos(max_bits as nat);
            lemma2_to64();
            assert(max_bits < 64) by {
                if max_bits >= 64 {
                    if max_bits > 64 {
                        vstd::arithmetic::power2::lemma_pow2_strictly_increases(64, max_bits as nat);
                    }
                    assert(n * pow2(max_bits as nat) >= pow2(max_bits as nat)) by (nonlinear_arith)
                        requires
                            n >= 1,
                            pow2(max_bits as nat) >= 1,
                    ;
                }
            }
        }
        let mut bl_count: Vec<u64> = vec![0u64; n];
        let mut i: u8 = 0;
        while i < max_bits + 1
            invariant
                n == bl.len(),
                bl == bl_list@,
                max_bits < n,
                max_bits < 64,
                i <= max_bits + 1,
                bl_count@.len() == n,
                forall|l: int| 1 <= l < i ==> #[trigger] bl_count@[l] == count_len(bl, l, n as int),
                forall|l: int| i <= l < n || l == 0 ==> #[trigger] bl_count@[l] == 0,
            decreases max_bits + 1 - i,
        {
            let mut k: usize = 0;
            while k < n
                invariant
                    n == bl.len(),
                    bl == bl_list@,
                    max_bits < n,
                    max_bits < 64,
                    i <= max_bits,
                    k <= n,
                    bl_count@.len() == n,
                    forall|l: int| 1 <= l < i ==> #[trigger] bl_count@[l] == count_len(bl, l, n as int),
                    forall|l: int| i < l < n || l == 0 ==> #[trigger] bl_count@[l] == 0,
                    i != 0 ==> bl_count@[i as int] == count_len(bl, i as int, k as int),
                decreases n - k,
            {
                if bl_list[k] == i && i != 0 {
                    proof {
                        lemma_count_le(bl, i as int, k as int);
                    }
                    bl_count.set(i as usize, bl_count[i as usize] + 1);
                }
                k += 1;
            }
            i += 1;
        }
        let mut next_code: Vec<u64> = vec![0u64, 0u64];
        let mut bit_len: u8 = 2;
        while bit_len < max_bits + 1
            invariant
                n == bl.len(),
                bl == bl_list@,
                max_bits < n,
                max_bits < 64,
                n * pow2(max_bits as nat) <= u64::MAX,
                2 <= bit_len,
                bit_len <= max_bits + 1 || bit_len == 2,
                bl_count@.len() == n,
                forall|l: int| 1 <= l <= max_bits ==> #[trigger] bl_count@[l] == count_len(bl, l, n as int),
                next_code@.len() == bit_len,
                forall|l: int| 1 <= l < bit_len ==> #[trigger] next_code@[l] == first_code(bl, l),
            decreases max_bits + 1 - bit_len,
        {
            let b = bit_len as usize;
            proof {
                lemma_first_code_bound(bl, b - 1);
                lemma_pow2_pos((b - 1) as nat);
                vstd::arithmetic::power2::lemma_pow2_unfold(b as nat);
                if b < max_bits {
                    vstd::arithmetic::power2::lemma_pow2_strictly_increases(b as nat, max_bits as nat);
                }
                let x = first_code(bl, b - 1) + count_len(bl, b - 1, n as int);
                assert(x * 2 <= n * pow2(max_bits as nat)) by (nonlinear_arith)
                    requires
                        x <= n * (pow2((b - 1) as nat) - 1),
                        pow2(b as nat) == 2 * pow2((b - 1) as nat),
                        pow2(b as nat) <= pow2(max_bits as nat),
                        n >= 0,
                ;
                lemma2_to64();
                vstd::bits::lemma_u64_shl_is_mul(x as u64, 1);
            }
            let v = (next_code[b - 1] + bl_count[b - 1]) << 1;
            next_code.push(v);
            bit_len += 1;
        }
        let mut tree = Self::new();
        let m = if alphabet.len() < n {
            alphabet.len()
        } else {
            n
        };
        let mut k: usize = 0;
        while k < m
            invariant
                n == bl.len(),
                bl == bl_list@,
                m <= n,
                m <= alphabet@.len(),
                k <= m,
                max_bits < 64,
                forall|j: int| 0 <= j < n ==> #[trigger] bl[j] <= max_bits,
                forall|j: int| 0 <= j < n ==> n * pow2(#[trigger] bl[j] as nat) <= u64::MAX,
                next_code@.len() >= max_bits + 1,
                forall|l: int|
                    1 <= l <= max_bits ==> #[trigger] next_code@[l] == first_code(bl, l) + count_len(
                        bl,
                        l,
                        k as int,
                    ),
                forall|path: Seq<bool>|
                    #[trigger] tree.lookup(path) == canonical_lookup(alphabet@, bl, k as int, path),
                forall|path: Seq<bool>| #[trigger] tree.inner(path) == canonical_inner(bl, k as int, path),
                forall|path: Seq<bool>| #[trigger] tree.leaf(path) == canonical_leaf(bl, k as int, path),
            decreases m - k,
        {
            let b = bl_list[k] as usize;
            if b != 0 {
                proof {
                    lemma_first_code_bound(bl, b as int);
                    lemma_count_le(bl, b as int, k as int + 1);
                    super::codes::lemma_count_mono(bl, b as int, k as int + 1, n as int);
                    lemma_pow2_pos(b as nat);
                    assert(n * (pow2(b as nat) - 1) < n * pow2(b as nat) || n == 0) by (nonlinear_arith)
                        requires
                            pow2(b as nat) >= 1,
                    ;
                }
                let code = next_code[b];
                tree.insert(code, b, alphabet[k] as char);
                next_code.set(b, code + 1);
            }
            k += 1;
        }
        tree
    }

    /// Stores `symb` under the code made of the `n` low bits of `code`,
    /// most significant first.
    pub fn insert(&mut self, code: u64, n: usize, symb: char)
        requires
            n <= 64,
        ensures
            forall|path: Seq<bool>|
                #[trigger] final(self).lookup(path) == if path == code_path(code, n as int) {
                    Some(symb)
                } else {
                    old(self).lookup(path)
                },
            forall|path: Seq<bool>|
                #[trigger] final(self).inner(path) == (is_proper_prefix(path, code_path(code, n as int))
                    || old(self).inner(path)),
            forall|path: Seq<bool>|
                #[trigger] final(self).leaf(path) == if path == code_path(code, n as int) {
                    !old(self).inner(path)
                } else if is_proper_prefix(path, code_path(code, n as int)) {
                    false
                } else {
                    old(self).leaf(path)
                },
    {
        insert_node(&mut self.root, code, n, 0, symb);
        proof {
            assert(code_path(code, n as int).skip(0) =~= code_path(code, n as int));
        }
    }
}

/// The path of the canonical code of symbol `s` of the code lengths `bl`.
pub open spec fn canonical_path(bl: Seq<u8>, s: int) -> Seq<bool> {
    code_path(canonical_code(bl, s) as u64, bl[s] as int)
}

/// Each nonzero length of `bl` is below 64 and has room for its canonical
/// code.
spec fn codes_fit(bl: Seq<u8>) -> bool {
    forall|t: int|
        0 <= t < bl.len() && bl[t] != 0 ==> bl[t] < 64 && #[trigger] canonical_code(bl, t) < pow2(
            bl[t] as nat,
        )
}

proof fn lemma_node_decode_leaf(node: HuffmanNode, bits: Seq<bool>, p: int, path: Seq<bool>)
    requires
        node_leaf(node, path),
        0 <= p,
        p + path.len() <= bits.len(),
        bits.subrange(p, p + path.len()) == path,
    ensures
        node_decode(node, bits, p) == Some((node_lookup(node, path), p + path.len())),
    decreases path.len(),
{
    if path.len() > 0 {
        let rest = path.drop_first();
        assert(bits[p] == path[0]) by {
            assert(bits.subrange(p, p + path.len())[0] == bits[p]);
        }
        assert(bits.subrange(p + 1, p + 1 + rest.len()) =~= rest) by {
            assert forall|k: int| 0 <= k < rest.len() implies bits.subrange(p + 1, p + 1 + rest.len())[k]
                == rest[k] by {
                assert(bits.subrange(p, p + path.len())[k + 1] == path[k + 1]);
            }
        }
        let child = if path[0] {
            node.right
        } else {
            node.left
        };
        let c = child.unwrap();
        assert(node_at(node, path) == node_at(*c, rest));
        lemma_node_decode_leaf(*c, bits, p + 1, rest);
    }
}

/// Reading the bits of a path that ends at a node without children decodes
/// the symbol stored there and uses exactly the bits of the path.
pub proof fn lemma_decode_leaf(t: HuffmanTree, bits: Seq<bool>, p: int, path: Seq<bool>)
    requires
        t.leaf(path),
        0 <= p,
        p + path.len() <= bits.len(),
        bits.subrange(p, p + path.len()) == path,
    ensures
        t.decode_at(bits, p) == Some((t.lookup(path), p + path.len())),
{
    lemma_node_decode_leaf(t.root, bits, p, path);
}

proof fn lemma_shr_shr(c: u64, x: u64, y: u64)
    requires
        x + y < 64,
    ensures
        (c >> x) >> y == c >> ((x + y) as u64),
{
    let z = (x + y) as u64;
    vstd::bits::lemma_u64_shr_is_div(c, x);
    vstd::bits::lemma_u64_shr_is_div(c >> x, y);
    vstd::bits::lemma_u64_shr_is_div(c, z);
    lemma_pow2_pos(x as nat);
    lemma_pow2_pos(y as nat);
    vstd::arithmetic::power2::lemma_pow2_adds(x as nat, y as nat);
    vstd::arithmetic::div_mod::lemma_div_denominator(c as int, pow2(x as nat) as int, pow2(y as nat) as int);
}

proof fn lemma_low_bit_join(x: u64, y: u64)
    by (bit_vector)
    requires
        x >> 1u64 == y >> 1u64,
        (x & 1u64 == 1u64) == (y & 1u64 == 1u64),
    ensures
        x == y,
{
}

/// The first `a` steps of the path of `c` with `b` bits are the path of
/// `c` without its `b - a` low bits.
proof fn lemma_code_path_prefix(c: u64, a: int, b: int)
    requires
        0 <= a <= b < 64,
    ensures
        code_path(c, b).subrange(0, a) == code_path(c >> ((b - a) as u64), a),
{
    assert forall|i: int| 0 <= i < a implies code_path(c, b).subrange(0, a)[i] == code_path(
        c >> ((b - a) as u64),
        a,
    )[i] by {
        lemma_shr_shr(c, (b - a) as u64, (a - 1 - i) as u64);
    }
    assert(code_path(c, b).subrange(0, a) =~= code_path(c >> ((b - a) as u64), a));
}

proof fn lemma_code_path_split(x: u64, a: int)
    requires
        1 <= a < 64,
    ensures
        code_path(x, a) == code_path(x >> 1u64, a - 1).push(x & 1u64 == 1u64),
{
    assert forall|i: int| 0 <= i < a implies code_path(x, a)[i] == code_path(x >> 1u64, a - 1).push(
        x & 1u64 == 1u64,
    )[i] by {
        if i < a - 1 {
            lemma_shr_shr(x, 1u64, (a - 2 - i) as u64);
        } else {
            assert(x >> 0u64 == x) by (bit_vector);
        }
    }
    assert(code_path(x, a) =~= code_path(x >> 1u64, a - 1).push(x & 1u64 == 1u64));
}

/// Two values below `2^a` with the same path of `a` bits are equal.
proof fn lemma_code_path_injective(x: u64, y: u64, a: int)
    requires
        0 <= a < 64,
        x < pow2(a as nat),
        y < pow2(a as nat),
        code_path(x, a) == code_path(y, a),
    ensures
        x == y,
    decreases a,
{
    if a == 0 {
        lemma2_to64();
    } else {
        lemma_code_path_split(x, a);
        lemma_code_path_split(y, a);
        let px = code_path(x >> 1u64, a - 1);
        let py = code_path(y >> 1u64, a - 1);
        assert(px.push(x & 1u64 == 1u64).drop_last() =~= px);
        assert(py.push(y & 1u64 == 1u64).drop_last() =~= py);
        assert(px.push(x & 1u64 == 1u64).last() == (x & 1u64 == 1u64));
        assert(py.push(y & 1u64 == 1u64).last() == (y & 1u64 == 1u64));
        vstd::bits::lemma_u64_shr_is_div(x, 1u64);
        vstd::bits::lemma_u64_shr_is_div(y, 1u64);
        vstd::arithmetic::power2::lemma_pow2_unfold(a as nat);
        lemma2_to64();
        lemma_code_path_injective(x >> 1u64, y >> 1u64, a - 1);
        lemma_low_bit_join(x, y);
    }
}

/// A canonical code that starts with the canonical code of `s` is the code
/// of `s` itself: canonical codes are prefix-free.
proof fn lemma_prefix_is_same_code(bl: Seq<u8>, s: int, t: int)
    requires
        codes_fit(bl),
        0 <= s < bl.len(),
        0 <= t < bl.len(),
        bl[s] != 0,
        bl[t] != 0,
        bl[s] <= bl[t],
        canonical_path(bl, t).subrange(0, bl[s] as int) == canonical_path(bl, s),
    ensures
        s == t,
{
    let a = bl[s] as int;
    let b = bl[t] as int;
    let cs = canonical_code(bl, s);
    let ct = canonical_code(bl, t);
    assert(cs < pow2(a as nat) && a < 64);
    assert(ct < pow2(b as nat) && b < 64);
    lemma2_to64();
    vstd::bits::lemma_u64_pow2_no_overflow(b as nat);
    vstd::bits::lemma_u64_pow2_no_overflow(a as nat);
    let k = (b - a) as u64;
    lemma_code_path_prefix(ct as u64, a, b);
    let q = (ct as u64) >> k;
    vstd::bits::lemma_u64_shr_is_div(ct as u64, k);
    lemma_pow2_pos(k as nat);
    vstd::arithmetic::power2::lemma_pow2_adds(a as nat, k as nat);
    let pk = pow2(k as nat) as int;
    let pa = pow2(a as nat) as int;
    vstd::arithmetic::div_mod::lemma_fundamental_div_mod(ct as int, pk);
    vstd::arithmetic::div_mod::lemma_mod_pos_bound(ct as int, pk);
    let r = (ct as int) % pk;
    assert(q < pa) by (nonlinear_arith)
        requires
            ct as int == pk * q + r,
            0 <= r < pk,
            ct < pa * pk,
            pk > 0,
    ;
    lemma_code_path_injective(q, cs as u64, a);
    assert(q == cs);
    if a == b {
        assert(pk == 1) by {
            lemma2_to64();
        }
        assert(ct == cs);
        if s < t {
            super::codes::lemma_count_mono(bl, a, s + 1, t);
        } else if t < s {
            super::codes::lemma_count_mono(bl, a, t + 1, s);
        }
    } else {
        super::codes::lemma_first_code_grows(bl, a, b);
        super::codes::lemma_rank_lt_count(bl, s);
        let kk = (first_code(bl, a) + count_len(bl, a, bl.len() as int)) as int;
        assert(ct as int >= kk * pk);
        assert(q >= kk) by (nonlinear_arith)
            requires
                ct as int == pk * q + r,
                0 <= r < pk,
                ct as int >= kk * pk,
                pk > 0,
        ;
        assert(false);
    }
}

proof fn lemma_no_earlier_extension(bl: Seq<u8>, m: int, s: int)
    requires
        codes_fit(bl),
        0 <= m <= s < bl.len(),
        bl[s] != 0,
    ensures
        !canonical_inner(bl, m, canonical_path(bl, s)),
    decreases m,
{
    if m > 0 {
        lemma_no_earlier_extension(bl, m - 1, s);
        let t = m - 1;
        if bl[t] != 0 && is_proper_prefix(canonical_path(bl, s), canonical_path(bl, t)) {
            lemma_prefix_is_same_code(bl, s, t);
        }
    }
}

proof fn lemma_canonical_code_found(alphabet: Seq<u8>, bl: Seq<u8>, m: int, s: int)
    requires
        codes_fit(bl),
        0 <= s < m <= bl.len(),
        bl[s] != 0,
    ensures
        canonical_leaf(bl, m, canonical_path(bl, s)),
        canonical_lookup(alphabet, bl, m, canonical_path(bl, s)) == Some(alphabet[s] as char),
    decreases m,
{
    if m - 1 == s {
        lemma_no_earlier_extension(bl, s, s);
    } else {
        lemma_canonical_code_found(alphabet, bl, m - 1, s);
        let t = m - 1;
        if bl[t] != 0 {
            let ps = canonical_path(bl, s);
            let pt = canonical_path(bl, t);
            if ps == pt {
                assert(pt.subrange(0, bl[s] as int) =~= pt);
                lemma_prefix_is_same_code(bl, s, t);
            }
            if is_proper_prefix(ps, pt) {
                lemma_prefix_is_same_code(bl, s, t);
            }
        }
    }
}

/// A tree built from code lengths below 64 that meet Kraft's inequality
/// decodes every symbol with a code: the code of `alphabet[s]` ends at a
/// node without children that holds `alphabet[s]`, so reading its bits,
/// from any position of any bit string, gives `alphabet[s]` and the
/// position after the code.
pub proof fn lemma_canonical_tree_decodes(
    t: HuffmanTree,
    alphabet: Seq<u8>,
    bl: Seq<u8>,
    s: int,
    bits: Seq<bool>,
    p: int,
)
    requires
        t.is_canonical_tree(alphabet, bl),
        kraft(bl),
        forall|i: int| 0 <= i < bl.len() ==> #[trigger] bl[i] < 64,
        0 <= s < bl.len(),
        s < alphabet.len(),
        bl[s] != 0,
        0 <= p,
        p + bl[s] <= bits.len(),
        bits.subrange(p, p + bl[s]) == canonical_path(bl, s),
    ensures
        t.leaf(canonical_path(bl, s)),
        t.lookup(canonical_path(bl, s)) == Some(alphabet[s] as char),
        t.decode_at(bits, p) == Some((Some(alphabet[s] as char), p + bl[s])),
{
    let m = if alphabet.len() < bl.len() {
        alphabet.len() as int
    } else {
        bl.len() as int
    };
    lemma_kraft_codes_fit(bl);
    assert(codes_fit(bl));
    lemma_canonical_code_found(alphabet, bl, m, s);
    assert(t.leaf(canonical_path(bl, s)));
    assert(t.lookup(canonical_path(bl, s)) == Some(alphabet[s] as char));
    lemma_decode_leaf(t, bits, p, canonical_path(bl, s));
}

proof fn lemma_canonical_lookup_codes(alphabet: Seq<u8>, bl: Seq<u8>, m: int, path: Seq<bool>)
    ensures
        canonical_lookup(alphabet, bl, m, path) is Some ==> exists|s: int|
            0 <= s < m && bl[s] != 0 && path == #[trigger] canonical_path(bl, s) && canonical_lookup(
                alphabet,
                bl,
                m,
                path,
            ) == Some(alphabet[s] as char),
    decreases m,
{
    if m > 0 {
        lemma_canonical_lookup_codes(alphabet, bl, m - 1, path);
        if bl[m - 1] != 0 && path == canonical_path(bl, m - 1) {
            assert(canonical_path(bl, m - 1) == path);
        }
    }
}

/// A tree built from code lengths holds no symbol but those of the codes:
/// each symbol it holds sits at the end of the canonical code of a symbol
/// `s` with a nonzero length, and is `alphabet[s]`.
pub proof fn lemma_canonical_tree_symbols(t: HuffmanTree, alphabet: Seq<u8>, bl: Seq<u8>, path: Seq<bool>)
    requires
        t.is_canonical_tree(alphabet, bl),
        t.lookup(path) is Some,
    ensures
        exists|s: int|
            0 <= s < bl.len() && s < alphabet.len() && bl[s] != 0 && path == #[trigger] canonical_path(bl, s)
                && t.lookup(path) == Some(alphabet[s] as char),
{
    let m = if alphabet.len() < bl.len() {
        alphabet.len() as int
    } else {
        bl.len() as int
    };
    lemma_canonical_lookup_codes(alphabet, bl, m, path);
}

/// Follows the bits of `stream` down from `node` to a node without
/// children and gives its symbol.
fn decode_node(node: &HuffmanNode, stream: &mut Stream) -> (r: Option<char>)
    requires
        old(stream).wf(),
        node_decode(*node, old(stream).bits(), old(stream).pos()) is Some,
    ensures
        final(stream).wf(),
        final(stream).data() == old(stream).data(),
        r == node_decode(*node, old(stream).bits(), old(stream).pos()).unwrap().0,
        final(stream).pos() == node_decode(*node, old(stream).bits(), old(stream).pos()).unwrap().1,
    decreases *node,
{
    if node.left.is_none() && node.right.is_none() {
        return node.symb;
    }
    let bit = stream.read_bit();
    if bit == 1 {
        match &node.right {
            Some(c) => decode_node(c, stream),
            None => None,
        }
    } else {
        match &node.left {
            Some(c) => decode_node(c, stream),
            None => None,
        }
    }
}

/// Decodes one symbol from the stream's position: follows one bit per step
/// from the root while the node has a child, and gives the symbol of the
/// node reached. The bits must lead to such a node without running out.
pub fn decode_symb(mut stream: Stream, tree: HuffmanTree) -> (r: Option<char>)
    requires
        stream.wf(),
        tree.decode_at(stream.bits(), stream.pos()) is Some,
    ensures
        r == tree.decode_at(stream.bits(), stream.pos()).unwrap().0,
{
    decode_node(&tree.root, &mut stream)
}

} // verus!

use vstd::prelude::*;

verus! {

/// A node of the AVL tree: a key, its value, a cached height, and the two
/// exclusively owned subtrees.
struct Node<V> {
    key: i64,
    value: V,
    height: usize,
    left: Option<Box<Node<V>>>,
    right: Option<Box<Node<V>>>,
}

/// An ordered key-value container backed by a height-balanced binary search
/// tree. Keys are unique; a later insert of an existing key never overwrites
/// the stored value.
pub struct AvlTree<V> {
    root: Option<Box<Node<V>>>,
}

/// The larger of two natural numbers.
pub open spec fn max_nat(a: nat, b: nat) -> nat {
    if a >= b {
        a
    } else {
        b
    }
}

/// Structural height of a subtree: 0 for an absent subtree, 1 for a leaf.
spec fn ht<V>(t: Option<Box<Node<V>>>) -> nat
    decreases t,
{
    match t {
        None => 0,
        Some(n) => 1 + max_nat(ht(n.left), ht(n.right)),
    }
}

/// In-order traversal of a subtree as a sequence of (key, value) pairs.
spec fn inorder<V>(t: Option<Box<Node<V>>>) -> Seq<(i64, V)>
    decreases t,
{
    match t {
        None => Seq::empty(),
        Some(n) => inorder(n.left) + seq![(n.key, n.value)] + inorder(n.right),
    }
}

/// Every key of the sequence is strictly below the bound.
pub open spec fn keys_below<V>(s: Seq<(i64, V)>, bound: i64) -> bool {
    forall|i: int| 0 <= i < s.len() ==> #[trigger] s[i].0 < bound
}

/// Every key of the sequence is strictly above the bound.
pub open spec fn keys_above<V>(s: Seq<(i64, V)>, bound: i64) -> bool {
    forall|i: int| 0 <= i < s.len() ==> #[trigger] s[i].0 > bound
}

/// The keys of the sequence are strictly increasing.
pub open spec fn sorted<V>(s: Seq<(i64, V)>) -> bool {
    forall|i: int, j: int| 0 <= i < j < s.len() ==> #[trigger] s[i].0 < #[trigger] s[j].0
}

/// Every cached height field in the subtree equals the structural height of
/// the node it sits on.
spec fn heights_ok<V>(t: Option<Box<Node<V>>>) -> bool
    decreases t,
{
    match t {
        None => true,
        Some(n) => heights_ok(n.left) && heights_ok(n.right) && n.height == 1 + max_nat(
            ht(n.left),
            ht(n.right),
        ),
    }
}

/// Every node of the subtree is height-balanced: its children's heights
/// differ by at most one.
spec fn balanced<V>(t: Option<Box<Node<V>>>) -> bool
    decreases t,
{
    match t {
        None => true,
        Some(n) => balanced(n.left) && balanced(n.right) && ht(n.left) <= ht(n.right) + 1 && ht(
            n.right,
        ) <= ht(n.left) + 1,
    }
}

/// Binary-search-tree ordering: at every node, the keys of the left subtree
/// lie below the node's key and the keys of the right subtree above it.
spec fn ordered<V>(t: Option<Box<Node<V>>>) -> bool
    decreases t,
{
    match t {
        None => true,
        Some(n) => ordered(n.left) && ordered(n.right) && keys_below(inorder(n.left), n.key)
            && keys_above(inorder(n.right), n.key),
    }
}

/// Full well-formedness of a subtree: consistent cached heights, AVL balance,
/// and binary-search-tree ordering.
spec fn wf<V>(t: Option<Box<Node<V>>>) -> bool {
    heights_ok(t) && balanced(t) && ordered(t)
}

impl<V> View for AvlTree<V> {
    type V = Seq<(i64, V)>;

    closed spec fn view(&self) -> Seq<(i64, V)> {
        inorder(self.root)
    }
}

impl<V> AvlTree<V> {
    /// The tree's internal invariant: cached heights are exact, every node is
    /// AVL-balanced, and the in-order key sequence is strictly increasing.
    pub closed spec fn wf(self) -> bool {
        wf(self.root)
    }

    /// Height of the tree: 0 when empty, 1 for a single node.
    pub closed spec fn height(self) -> nat {
        ht(self.root)
    }
}

/// The value bound to a key in an association sequence: the first pair with
/// that key, or `None` when no pair carries it.
pub open spec fn lookup<V>(s: Seq<(i64, V)>, key: i64) -> Option<V>
    decreases s.len(),
{
    if s.len() == 0 {
        None
    } else if s[0].0 == key {
        Some(s[0].1)
    } else {
        lookup(s.drop_first(), key)
    }
}

/// No pair of the sequence carries the given key.
pub open spec fn key_absent<V>(s: Seq<(i64, V)>, key: i64) -> bool {
    forall|i: int| 0 <= i < s.len() ==> (#[trigger] s[i]).0 != key
}

/// Looking a key up in a concatenation: the left half wins when it holds the
/// key, otherwise the right half answers.
proof fn lemma_lookup_cat<V>(a: Seq<(i64, V)>, b: Seq<(i64, V)>, key: i64)
    ensures
        lookup(a + b, key) == (if lookup(a, key) is Some {
            lookup(a, key)
        } else {
            lookup(b, key)
        }),
    decreases a.len(),
{
    if a.len() == 0 {
        assert(a + b =~= b);
    } else {
        assert((a + b)[0] == a[0]);
        assert((a + b).drop_first() =~= a.drop_first() + b);
        lemma_lookup_cat(a.drop_first(), b, key);
    }
}

/// A key carried by no pair is never found.
proof fn lemma_lookup_absent<V>(s: Seq<(i64, V)>, key: i64)
    requires
        key_absent(s, key),
    ensures
        lookup(s, key) is None,
    decreases s.len(),
{
    if s.len() > 0 {
        assert(s[0].0 != key);
        assert forall|i: int| 0 <= i < s.drop_first().len() implies (#[trigger] s.drop_first()[i]).0
            != key by {
            assert(s.drop_first()[i] == s[i + 1]);
        }
        lemma_lookup_absent(s.drop_first(), key);
    }
}

/// Looking a key up in `low ++ [(mk, mv)] ++ high` where every key of `low`
/// lies below `mk` and every key of `high` above it: the side the key falls
/// on answers, and `mk` itself yields `mv`.
proof fn lemma_lookup_parts<V>(a: Seq<(i64, V)>, mk: i64, mv: V, b: Seq<(i64, V)>, key: i64)
    requires
        keys_below(a, mk),
        keys_above(b, mk),
    ensures
        lookup(a + seq![(mk, mv)] + b, key) == (if key < mk {
            lookup(a, key)
        } else if key == mk {
            Some(mv)
        } else {
            lookup(b, key)
        }),
{
    let m = seq![(mk, mv)];
    lemma_lookup_cat(a + m, b, key);
    lemma_lookup_cat(a, m, key);
    assert(m.drop_first() =~= Seq::<(i64, V)>::empty());
    assert(lookup(Seq::<(i64, V)>::empty(), key) is None);
    assert(m[0] == (mk, mv));
    if key < mk {
        assert(lookup(m, key) is None);
        assert forall|i: int| 0 <= i < b.len() implies (#[trigger] b[i]).0 != key by {
            assert(b[i].0 > mk);
        }
        lemma_lookup_absent(b, key);
    } else if key == mk {
        assert forall|i: int| 0 <= i < a.len() implies (#[trigger] a[i]).0 != key by {
            assert(a[i].0 < mk);
        }
        lemma_lookup_absent(a, key);
        assert(lookup(m, key) == Some(mv));
    } else {
        assert forall|i: int| 0 <= i < a.len() implies (#[trigger] a[i]).0 != key by {
            assert(a[i].0 < mk);
        }
        lemma_lookup_absent(a, key);
        assert(lookup(m, key) is None);
    }
}

/// Insertion into a strictly sorted association sequence: the pair is placed
/// before the first larger key; a pair with an equal key keeps the sequence
/// unchanged (first write wins).
pub open spec fn ins<V>(s: Seq<(i64, V)>, key: i64, value: V) -> Seq<(i64, V)>
    decreases s.len(),
{
    if s.len() == 0 {
        seq![(key, value)]
    } else if key < s[0].0 {
        seq![(key, value)] + s
    } else if key == s[0].0 {
        s
    } else {
        seq![s[0]] + ins(s.drop_first(), key, value)
    }
}

/// Inserting a key that lies below every key of the right half happens
/// entirely inside the left half.
proof fn lemma_ins_concat_low<V>(a: Seq<(i64, V)>, b: Seq<(i64, V)>, key: i64, value: V)
    requires
        b.len() > 0,
        key < b[0].0,
    ensures
        ins(a + b, key, value) == ins(a, key, value) + b,
    decreases a.len(),
{
    if a.len() == 0 {
        assert(a + b =~= b);
        assert(ins(a, key, value) == seq![(key, value)]);
        assert(seq![(key, value)] + b =~= ins(b, key, value));
    } else {
        assert((a + b)[0] == a[0]);
        if key < a[0].0 {
            assert(seq![(key, value)] + (a + b) =~= (seq![(key, value)] + a) + b);
        } else if key == a[0].0 {
        } else {
            assert((a + b).drop_first() =~= a.drop_first() + b);
            lemma_ins_concat_low(a.drop_first(), b, key, value);
            assert(seq![a[0]] + (ins(a.drop_first(), key, value) + b) =~= (seq![a[0]] + ins(
                a.drop_first(),
                key,
                value,
            )) + b);
        }
    }
}

/// Inserting a key that lies above every key of the left half happens
/// entirely inside the right half.
proof fn lemma_ins_concat_high<V>(a: Seq<(i64, V)>, b: Seq<(i64, V)>, key: i64, value: V)
    requires
        keys_below(a, key),
    ensures
        ins(a + b, key, value) == a + ins(b, key, value),
    decreases a.len(),
{
    if a.len() == 0 {
        assert(a + b =~= b);
        assert(a + ins(b, key, value) =~= ins(b, key, value));
    } else {
        assert((a + b)[0] == a[0]);
        assert(a[0].0 < key);
        assert((a + b).drop_first() =~= a.drop_first() + b);
        assert forall|i: int| 0 <= i < a.drop_first().len() implies #[trigger] a.drop_first()[i].0
            < key by {
            assert(a.drop_first()[i] == a[i + 1]);
        }
        lemma_ins_concat_high(a.drop_first(), b, key, value);
        assert(seq![a[0]] + (a.drop_first() + ins(b, key, value)) =~= a + ins(b, key, value));
    }
}

/// Insertion keeps every key below a bound when the new key is below it too.
proof fn lemma_ins_keys_below<V>(s: Seq<(i64, V)>, bound: i64, key: i64, value: V)
    requires
        keys_below(s, bound),
        key < bound,
    ensures
        keys_below(ins(s, key, value), bound),
    decreases s.len(),
{
    let r = ins(s, key, value);
    if s.len() == 0 {
        assert(r[0].0 == key);
    } else if key < s[0].0 {
        assert forall|i: int| 0 <= i < r.len() implies #[trigger] r[i].0 < bound by {
            if i == 0 {
                assert(r[0].0 == key);
            } else {
                assert(r[i] == s[i - 1]);
            }
        }
    } else if key == s[0].0 {
    } else {
        assert forall|i: int| 0 <= i < s.drop_first().len() implies #[trigger] s.drop_first()[i].0
            < bound by {
            assert(s.drop_first()[i] == s[i + 1]);
        }
        lemma_ins_keys_below(s.drop_first(), bound, key, value);
        let rest = ins(s.drop_first(), key, value);
        assert forall|i: int| 0 <= i < r.len() implies #[trigger] r[i].0 < bound by {
            if i == 0 {
                assert(r[0] == s[0]);
            } else {
                assert(r[i] == rest[i - 1]);
            }
        }
    }
}

/// Insertion keeps every key above a bound when the new key is above it too.
proof fn lemma_ins_keys_above<V>(s: Seq<(i64, V)>, bound: i64, key: i64, value: V)
    requires
        keys_above(s, bound),
        key > bound,
    ensures
        keys_above(ins(s, key, value), bound),
    decreases s.len(),
{
    let r = ins(s, key, value);
    if s.len() == 0 {
        assert(r[0].0 == key);
    } else if key < s[0].0 {
        assert forall|i: int| 0 <= i < r.len() implies #[trigger] r[i].0 > bound by {
            if i == 0 {
                assert(r[0].0 == key);
            } else {
                assert(r[i] == s[i - 1]);
            }
        }
    } else if key == s[0].0 {
    } else {
        assert forall|i: int| 0 <= i < s.drop_first().len() implies #[trigger] s.drop_first()[i].0
            > bound by {
            assert(s.drop_first()[i] == s[i + 1]);
        }
        lemma_ins_keys_above(s.drop_first(), bound, key, value);
        let rest = ins(s.drop_first(), key, value);
        assert forall|i: int| 0 <= i < r.len() implies #[trigger] r[i].0 > bound by {
            if i == 0 {
                assert(r[0] == s[0]);
            } else {
                assert(r[i] == rest[i - 1]);
            }
        }
    }
}

/// Inserting a key smaller than the root's key rewrites only the left part of
/// the traversal.
proof fn lemma_ins_left<V>(a: Seq<(i64, V)>, mk: i64, mv: V, b: Seq<(i64, V)>, key: i64, value: V)
    requires
        key < mk,
    ensures
        ins(a + seq![(mk, mv)] + b, key, value) == ins(a, key, value) + seq![(mk, mv)] + b,
{
    let m = seq![(mk, mv)];
    assert(a + m + b =~= a + (m + b));
    assert((m + b)[0] == (mk, mv));
    lemma_ins_concat_low(a, m + b, key, value);
    assert(ins(a, key, value) + (m + b) =~= ins(a, key, value) + m + b);
}

/// Inserting a key larger than the root's key rewrites only the right part of
/// the traversal.
proof fn lemma_ins_right<V>(a: Seq<(i64, V)>, mk: i64, mv: V, b: Seq<(i64, V)>, key: i64, value: V)
    requires
        key > mk,
        keys_below(a, mk),
    ensures
        ins(a + seq![(mk, mv)] + b, key, value) == a + seq![(mk, mv)] + ins(b, key, value),
{
    let m = seq![(mk, mv)];
    assert(m[0] == (mk, mv));
    lemma_keys_below_cat(a, m, key);
    assert forall|i: int| 0 <= i < a.len() implies #[trigger] a[i].0 < key by {
        assert(a[i].0 < mk);
    }
    assert(keys_below(m, key));
    lemma_ins_concat_high(a + m, b, key, value);
    assert((a + m) + ins(b, key, value) =~= a + m + ins(b, key, value));
}

/// Inserting the root's own key leaves the traversal unchanged: the first
/// write of a key wins.
proof fn lemma_ins_same<V>(a: Seq<(i64, V)>, mk: i64, mv: V, b: Seq<(i64, V)>, value: V)
    requires
        keys_below(a, mk),
    ensures
        ins(a + seq![(mk, mv)] + b, mk, value) == a + seq![(mk, mv)] + b,
{
    let m = seq![(mk, mv)];
    assert(a + m + b =~= a + (m + b));
    assert((m + b)[0] == (mk, mv));
    lemma_ins_concat_high(a, m + b, mk, value);
    assert(ins(m + b, mk, value) == m + b);
}

/// The Fibonacci numbers, the yardstick for the AVL height bound.
pub open spec fn fib(n: nat) -> nat
    decreases n,
{
    if n == 0 {
        0
    } else if n == 1 {
        1
    } else {
        fib((n - 2) as nat) + fib((n - 1) as nat)
    }
}

/// Fibonacci numbers never decrease.
proof fn lemma_fib_mono(a: nat, b: nat)
    requires
        a <= b,
    ensures
        fib(a) <= fib(b),
    decreases b,
{
    if a < b {
        lemma_fib_mono(a, (b - 1) as nat);
        if b >= 2 {
            assert(fib(b) == fib((b - 2) as nat) + fib((b - 1) as nat));
        } else {
            assert(b == 1 && a == 0);
        }
    }
}

/// A balanced subtree of height `h` holds at least `fib(h + 2) - 1` pairs:
/// the minimal AVL tree of a given height is the Fibonacci tree.
proof fn lemma_size_fib<V>(t: Option<Box<Node<V>>>)
    requires
        balanced(t),
    ensures
        fib(ht(t) + 2) <= inorder(t).len() + 1,
    decreases t,
{
    match t {
        None => {
            assert(fib(0) == 0 && fib(1) == 1);
            assert(fib(2) == 1);
        },
        Some(n) => {
            lemma_size_fib(n.left);
            lemma_size_fib(n.right);
            let hl = ht(n.left);
            let hr = ht(n.right);
            let h = ht(t);
            assert(h == 1 + max_nat(hl, hr));
            assert(inorder(t).len() == inorder(n.left).len() + 1 + inorder(n.right).len());
            if hl >= hr {
                assert(fib(h + 2) == fib((hl + 1) as nat) + fib((hl + 2) as nat));
                lemma_fib_mono((hl + 1) as nat, (hr + 2) as nat);
            } else {
                assert(fib(h + 2) == fib((hr + 1) as nat) + fib((hr + 2) as nat));
                lemma_fib_mono((hr + 1) as nat, (hl + 2) as nat);
            }
        },
    }
}

/// An ordered subtree traverses in strictly increasing key order.
proof fn lemma_ordered_sorted<V>(t: Option<Box<Node<V>>>)
    requires
        ordered(t),
    ensures
        sorted(inorder(t)),
    decreases t,
{
    match t {
        None => {},
        Some(n) => {
            lemma_ordered_sorted(n.left);
            lemma_ordered_sorted(n.right);
            let a = inorder(n.left);
            let b = inorder(n.right);
            let s = inorder(t);
            let la = a.len() as int;
            assert(s == a + seq![(n.key, n.value)] + b);
            assert forall|i: int, j: int| 0 <= i < j < s.len() implies #[trigger] s[i].0
                < #[trigger] s[j].0 by {
                if i < la {
                    assert(s[i] == a[i]);
                    assert(a[i].0 < n.key);
                }
                if i == la {
                    assert(s[i] == (n.key, n.value));
                }
                if i > la {
                    assert(s[i] == b[i - la - 1]);
                    assert(b[i - la - 1].0 > n.key);
                }
                if j < la {
                    assert(s[j] == a[j]);
                    assert(a[j].0 < n.key);
                }
                if j == la {
                    assert(s[j] == (n.key, n.value));
                }
                if j > la {
                    assert(s[j] == b[j - la - 1]);
                    assert(b[j - la - 1].0 > n.key);
                }
            }
        },
    }
}

/// What a lookup finds after an insertion: the inserted key now answers with
/// the first value it was ever given — an already-bound key keeps its old
/// value — and every other key answers exactly as before.
pub proof fn lemma_lookup_ins<V>(s: Seq<(i64, V)>, key: i64, value: V, probe: i64)
    requires
        sorted(s),
    ensures
        lookup(ins(s, key, value), probe) == (if probe == key {
            if lookup(s, key) is Some {
                lookup(s, key)
            } else {
                Some(value)
            }
        } else {
            lookup(s, probe)
        }),
    decreases s.len(),
{
    let one = seq![(key, value)];
    assert(one[0] == (key, value));
    assert(one.drop_first() =~= Seq::<(i64, V)>::empty());
    if s.len() == 0 {
        assert(ins(s, key, value) == one);
    } else if key < s[0].0 {
        assert(ins(s, key, value) == one + s);
        lemma_lookup_cat(one, s, probe);
        if probe == key {
            assert forall|i: int| 0 <= i < s.len() implies (#[trigger] s[i]).0 != key by {
                if i > 0 {
                    assert(s[0].0 < s[i].0);
                }
            }
            lemma_lookup_absent(s, key);
        }
    } else if key == s[0].0 {
        assert(ins(s, key, value) == s);
        assert(lookup(s, key) == Some(s[0].1));
    } else {
        let rest = s.drop_first();
        assert(ins(s, key, value) == seq![s[0]] + ins(rest, key, value));
        assert forall|i: int, j: int| 0 <= i < j < rest.len() implies #[trigger] rest[i].0
            < #[trigger] rest[j].0 by {
            assert(rest[i] == s[i + 1]);
            assert(rest[j] == s[j + 1]);
        }
        lemma_lookup_ins(rest, key, value, probe);
        lemma_lookup_cat(seq![s[0]], ins(rest, key, value), probe);
        assert(seq![s[0]].drop_first() =~= Seq::<(i64, V)>::empty());
        assert(lookup(Seq::<(i64, V)>::empty(), probe) is None);
        assert(lookup(seq![s[0]], probe) == (if s[0].0 == probe {
            Some(s[0].1)
        } else {
            None::<V>
        }));
        assert(lookup(s, probe) == (if s[0].0 == probe {
            Some(s[0].1)
        } else {
            lookup(rest, probe)
        }));
        assert(lookup(s, key) == lookup(rest, key));
    }
}

/// A subtree of positive height is present.
proof fn lemma_pos_ht_some<V>(t: Option<Box<Node<V>>>)
    requires
        ht(t) > 0,
    ensures
        t is Some,
{
    match t {
        None => {
            assert(ht(t) == 0);
        },
        Some(_) => {},
    }
}

/// Splitting a concatenation: all keys lie below a bound exactly when both
/// halves' keys do.
proof fn lemma_keys_below_cat<V>(a: Seq<(i64, V)>, b: Seq<(i64, V)>, k: i64)
    ensures
        keys_below(a + b, k) == (keys_below(a, k) && keys_below(b, k)),
{
    if keys_below(a + b, k) {
        assert forall|i: int| 0 <= i < a.len() implies #[trigger] a[i].0 < k by {
            assert((a + b)[i].0 < k);
        }
        assert forall|i: int| 0 <= i < b.len() implies #[trigger] b[i].0 < k by {
            assert((a + b)[a.len() + i].0 < k);
        }
    }
    if keys_below(a, k) && keys_below(b, k) {
        assert forall|i: int| 0 <= i < (a + b).len() implies #[trigger] (a + b)[i].0 < k by {
            if i < a.len() {
                assert(a[i].0 < k);
            } else {
                assert(b[i - a.len()].0 < k);
            }
        }
    }
}

/// Splitting a concatenation: all keys lie above a bound exactly when both
/// halves' keys do.
proof fn lemma_keys_above_cat<V>(a: Seq<(i64, V)>, b: Seq<(i64, V)>, k: i64)
    ensures
        keys_above(a + b, k) == (keys_above(a, k) && keys_above(b, k)),
{
    if keys_above(a + b, k) {
        assert forall|i: int| 0 <= i < a.len() implies #[trigger] a[i].0 > k by {
            assert((a + b)[i].0 > k);
        }
        assert forall|i: int| 0 <= i < b.len() implies #[trigger] b[i].0 > k by {
            assert((a + b)[a.len() + i].0 > k);
        }
    }
    if keys_above(a, k) && keys_above(b, k) {
        assert forall|i: int| 0 <= i < (a + b).len() implies #[trigger] (a + b)[i].0 > k by {
            if i < a.len() {
                assert(a[i].0 > k);
            } else {
                assert(b[i - a.len()].0 > k);
            }
        }
    }
}

/// The in-order sequence of a present subtree, split at the root.
proof fn lemma_inorder_unfold<V>(n: Box<Node<V>>)
    ensures
        inorder(Some(n)) == inorder(n.left) + seq![(n.key, n.value)] + inorder(n.right),
        inorder(Some(n))[inorder(n.left).len() as int] == (n.key, n.value),
{
    assert(inorder(Some(n))[inorder(n.left).len() as int] == (n.key, n.value));
}

/// Ordering at a node places the left root's key below and the right root's
/// key above the node's own key.
proof fn lemma_ordered_root_keys<V>(n: Box<Node<V>>)
    requires
        ordered(Some(n)),
    ensures
        n.left matches Some(l) ==> l.key < n.key,
        n.right matches Some(r) ==> r.key > n.key,
{
    if let Some(l) = n.left {
        lemma_inorder_unfold(l);
        assert(inorder(n.left)[inorder(l.left).len() as int].0 == l.key);
    }
    if let Some(r) = n.right {
        lemma_inorder_unfold(r);
        assert(inorder(n.right)[inorder(r.left).len() as int].0 == r.key);
    }
}

impl<V> AvlTree<V> {
    /// An empty tree.
    pub fn new() -> (r: Self)
        ensures
            r.wf(),
            r@ == Seq::<(i64, V)>::empty(),
            r.height() == 0,
    {
        AvlTree { root: None }
    }

    /// Look a key up; `None` is the expected answer for an absent key, never
    /// an error.
    pub fn search(&self, key: i64) -> (r: Option<&V>)
        requires
            self.wf(),
        ensures
            match r {
                Some(v) => lookup(self@, key) == Some(*v),
                None => lookup(self@, key) is None,
            },
    {
        match &self.root {
            Some(root) => root.search_aux(key),
            None => None,
        }
    }

    /// Insert a pair. An already-present key is left untouched together with
    /// its first value; a fresh key is added and the tree is rebalanced. The
    /// height precondition is a machine limit: the rebalancing carries the
    /// height difference in an `isize`.
    pub fn insert(&mut self, key: i64, value: V)
        requires
            old(self).wf(),
            old(self).height() + 2 <= isize::MAX,
        ensures
            final(self).wf(),
            final(self)@ == ins(old(self)@, key, value),
            old(self).height() <= final(self).height() <= old(self).height() + 1,
    {
        let root = self.root.take();
        match root {
            None => {
                let leaf = Box::new(Node::new(key, value));
                proof {
                    assert(inorder(old(self).root) =~= Seq::<(i64, V)>::empty());
                    assert(inorder(Some(leaf)) =~= ins(inorder(old(self).root), key, value));
                    assert(heights_ok(Some(leaf)) && balanced(Some(leaf)) && ordered(Some(leaf)));
                    assert(ht(Some(leaf)) == 1);
                }
                self.root = Some(leaf);
            },
            Some(r) => {
                let nr = Node::insert_aux(r, key, value);
                self.root = Some(nr);
            },
        }
    }

    /// Join two trees around a middle pair. Every key of `left` must lie
    /// below `mid_key` and every key of `right` above it; both trees must be
    /// well formed. The result holds all pairs of both trees plus the middle
    /// pair, and its height is at most one more than the taller input's. The
    /// cost is proportional to the height difference of the inputs.
    pub fn join(mid_key: i64, mid_value: V, left: Self, right: Self) -> (r: Self)
        requires
            left.wf(),
            right.wf(),
            keys_below(left@, mid_key),
            keys_above(right@, mid_key),
            left.height() + 1 < usize::MAX,
            right.height() + 1 < usize::MAX,
        ensures
            r.wf(),
            r@ == left@ + seq![(mid_key, mid_value)] + right@,
            max_nat(left.height(), right.height()) <= r.height() <= max_nat(
                left.height(),
                right.height(),
            ) + 1,
    {
        let mid = Box::new(Node::new(mid_key, mid_value));
        let root = Node::join(mid, left.root, right.root);
        AvlTree { root: Some(root) }
    }

    /// Binary-search-tree ordering, observable through the view: a
    /// well-formed tree's in-order traversal carries strictly increasing
    /// keys, so every key occurs at most once.
    pub proof fn lemma_sorted(self)
        requires
            self.wf(),
        ensures
            sorted(self@),
    {
        lemma_ordered_sorted(self.root);
    }

    /// Round trip through `insert` and `search`: after inserting a pair, the
    /// inserted key answers with the value it was first given — an insert
    /// never overwrites — and every other key answers as before. `insert`
    /// turns the view into `ins(self@, key, value)` and `search` answers
    /// `lookup` on the view, so this pins both together.
    pub proof fn lemma_insert_then_search(self, key: i64, value: V, probe: i64)
        requires
            self.wf(),
        ensures
            lookup(ins(self@, key, value), probe) == (if probe == key {
                if lookup(self@, key) is Some {
                    lookup(self@, key)
                } else {
                    Some(value)
                }
            } else {
                lookup(self@, probe)
            }),
    {
        self.lemma_sorted();
        lemma_lookup_ins(self@, key, value, probe);
    }

    /// The AVL height bound: a well-formed tree of height `h` holds at least
    /// `fib(h + 2) - 1` pairs. Since `fib(h + 2)` grows as the golden ratio
    /// raised to `h`, this pins `h` below `log2(n + 1)` divided by `log2` of
    /// the golden ratio, about `1.44 * log2(n + 1)`.
    pub proof fn lemma_height_bound(self)
        requires
            self.wf(),
        ensures
            fib(self.height() + 2) <= self@.len() + 1,
    {
        lemma_size_fib(self.root);
    }

    /// The tree's height, read from the root's cached height field.
    pub fn get_height(&self) -> (h: usize)
        requires
            self.wf(),
        ensures
            h == self.height(),
    {
        Node::height_opt(&self.root)
    }
}

impl<V> Node<V> {
    /// A fresh leaf holding the given pair.
    fn new(key: i64, value: V) -> (r: Node<V>)
        ensures
            r.key == key,
            r.value == value,
            r.height == 1,
            r.left is None,
            r.right is None,
    {
        Node { key, value, height: 1, left: None, right: None }
    }

    /// Cached height of an optional subtree; 0 when absent.
    fn height_opt(node: &Option<Box<Node<V>>>) -> (r: usize)
        requires
            heights_ok(*node),
        ensures
            r == ht(*node),
    {
        match node {
            Some(n) => n.height,
            None => 0,
        }
    }

    /// Cached height of the left child; 0 when absent.
    fn left_height(&self) -> (r: usize)
        requires
            heights_ok(self.left),
        ensures
            r == ht(self.left),
    {
        match &self.left {
            Some(l) => l.height,
            None => 0,
        }
    }

    /// Cached height of the right child; 0 when absent.
    fn right_height(&self) -> (r: usize)
        requires
            heights_ok(self.right),
        ensures
            r == ht(self.right),
    {
        match &self.right {
            Some(r) => r.height,
            None => 0,
        }
    }

    /// Height difference `left - right`, the balance of this node. The
    /// height bounds are a machine limit: the difference is carried in an
    /// `isize`.
    fn balance_factor(&self) -> (r: isize)
        requires
            heights_ok(self.left),
            heights_ok(self.right),
            ht(self.left) <= isize::MAX,
            ht(self.right) <= isize::MAX,
        ensures
            r == ht(self.left) - ht(self.right),
    {
        self.left_height() as isize - self.right_height() as isize
    }

    /// Recompute this node's cached height from its children's cached heights.
    fn update_height(&mut self)
        requires
            heights_ok(old(self).left),
            heights_ok(old(self).right),
            ht(old(self).left) < usize::MAX,
            ht(old(self).right) < usize::MAX,
        ensures
            final(self).key == old(self).key,
            final(self).value == old(self).value,
            final(self).left == old(self).left,
            final(self).right == old(self).right,
            final(self).height == 1 + max_nat(ht(old(self).left), ht(old(self).right)),
    {
        let lh = Node::height_opt(&self.left);
        let rh = Node::height_opt(&self.right);
        self.height = 1 + (if lh >= rh {
            lh
        } else {
            rh
        });
    }

    /// Single right rotation: the left child becomes the root of the subtree,
    /// the old root becomes its right child, and the left child's former right
    /// subtree moves under the old root. Cached heights of the two moved nodes
    /// are recomputed; the in-order sequence is unchanged.
    fn rotate_right(n: Box<Node<V>>) -> (r: Box<Node<V>>)
        requires
            n.left is Some,
            heights_ok(n.left),
            heights_ok(n.right),
            ordered(Some(n)),
            ht(Some(n)) < usize::MAX,
        ensures
            heights_ok(Some(r)),
            ordered(Some(r)),
            inorder(Some(r)) == inorder(Some(n)),
            r.key == n.left.unwrap().key,
            r.left == n.left.unwrap().left,
            r.right is Some,
            r.right.unwrap().key == n.key,
            r.right.unwrap().left == n.left.unwrap().right,
            r.right.unwrap().right == n.right,
            ht(r.right) == 1 + max_nat(ht(n.left.unwrap().right), ht(n.right)),
            ht(Some(r)) == 1 + max_nat(ht(n.left.unwrap().left), ht(r.right)),
    {
        let ghost n0 = n;
        let ghost l0 = n.left.unwrap();
        proof {
            assert(ht(Some(n0)) == 1 + max_nat(ht(n0.left), ht(n0.right)));
            assert(ht(n0.left) == 1 + max_nat(ht(l0.left), ht(l0.right)));
            assert(heights_ok(l0.left) && heights_ok(l0.right));
        }
        let mut x = n;
        let mut l = x.left.take().unwrap();
        let lr = l.right.take();
        x.left = lr;
        x.update_height();
        l.right = Some(x);
        proof {
            assert(ht(l.right) == 1 + max_nat(ht(l0.right), ht(n0.right)));
        }
        l.update_height();
        proof {
            lemma_rotate_right_shape(n0, l);
        }
        l
    }

    /// Single left rotation: the mirror image of `rotate_right`.
    fn rotate_left(n: Box<Node<V>>) -> (r: Box<Node<V>>)
        requires
            n.right is Some,
            heights_ok(n.left),
            heights_ok(n.right),
            ordered(Some(n)),
            ht(Some(n)) < usize::MAX,
        ensures
            heights_ok(Some(r)),
            ordered(Some(r)),
            inorder(Some(r)) == inorder(Some(n)),
            r.key == n.right.unwrap().key,
            r.right == n.right.unwrap().right,
            r.left is Some,
            r.left.unwrap().key == n.key,
            r.left.unwrap().right == n.right.unwrap().left,
            r.left.unwrap().left == n.left,
            ht(r.left) == 1 + max_nat(ht(n.left), ht(n.right.unwrap().left)),
            ht(Some(r)) == 1 + max_nat(ht(r.left), ht(n.right.unwrap().right)),
    {
        let ghost n0 = n;
        let ghost r0 = n.right.unwrap();
        proof {
            assert(ht(Some(n0)) == 1 + max_nat(ht(n0.left), ht(n0.right)));
            assert(ht(n0.right) == 1 + max_nat(ht(r0.left), ht(r0.right)));
            assert(heights_ok(r0.left) && heights_ok(r0.right));
        }
        let mut x = n;
        let mut rc = x.right.take().unwrap();
        let rl = rc.left.take();
        x.right = rl;
        x.update_height();
        rc.left = Some(x);
        proof {
            assert(ht(rc.left) == 1 + max_nat(ht(n0.left), ht(r0.left)));
        }
        rc.update_height();
        proof {
            lemma_rotate_left_shape(n0, rc);
        }
        rc
    }

    /// Recursive insertion: descend to the proper side, then, on the way back
    /// up, recompute the cached height and restore balance with at most one
    /// single or double rotation. An equal key is a no-op: the first writer
    /// of a key wins. The subtree's height never shrinks and grows by at most
    /// one; when it grows, the new root is not perfectly balanced.
    #[verifier::rlimit(50)]
    fn insert_aux(n: Box<Node<V>>, key: i64, value: V) -> (r: Box<Node<V>>)
        requires
            wf(Some(n)),
            ht(Some(n)) + 2 <= isize::MAX,
        ensures
            wf(Some(r)),
            inorder(Some(r)) == ins(inorder(Some(n)), key, value),
            ht(Some(n)) <= ht(Some(r)) <= ht(Some(n)) + 1,
            ht(Some(r)) == ht(Some(n)) + 1 ==> ht(r.left) != ht(r.right),
        decreases ht(Some(n)),
    {
        let ghost n0 = n;
        let ghost aa = inorder(n0.left);
        let ghost bb = inorder(n0.right);
        let ghost mm = seq![(n0.key, n0.value)];
        let ghost hl = ht(n0.left);
        let ghost hr = ht(n0.right);
        proof {
            assert(heights_ok(n0.left) && heights_ok(n0.right) && balanced(n0.left) && balanced(
                n0.right,
            ) && ordered(n0.left) && ordered(n0.right));
            assert(keys_below(aa, n0.key) && keys_above(bb, n0.key));
            assert(ht(Some(n0)) == 1 + max_nat(hl, hr));
            assert(inorder(Some(n0)) == aa + mm + bb);
        }
        let mut x = n;
        if key == x.key {
            proof {
                lemma_ins_same(aa, n0.key, n0.value, bb, value);
            }
            return x;
        }
        if key < x.key {
            proof {
                lemma_ins_left(aa, n0.key, n0.value, bb, key, value);
            }
            let child = x.left.take();
            let nl = match child {
                None => {
                    let leaf = Box::new(Node::new(key, value));
                    proof {
                        assert(aa =~= Seq::<(i64, V)>::empty());
                        assert(inorder(Some(leaf)) =~= ins(aa, key, value));
                        assert(hl == 0 && ht(Some(leaf)) == 1);
                        assert(heights_ok(Some(leaf)) && balanced(Some(leaf)) && ordered(
                            Some(leaf),
                        ));
                    }
                    leaf
                },
                Some(l) => Node::insert_aux(l, key, value),
            };
            proof {
                assert(inorder(Some(nl)) == ins(aa, key, value));
                assert(hl <= ht(Some(nl)) <= hl + 1);
                assert(ht(Some(nl)) == hl + 1 && ht(Some(nl)) >= 2 ==> ht(nl.left) != ht(
                    nl.right,
                ));
                lemma_ins_keys_below(aa, n0.key, key, value);
                assert(keys_below(inorder(Some(nl)), n0.key));
            }
            x.left = Some(nl);
        } else {
            proof {
                lemma_ins_right(aa, n0.key, n0.value, bb, key, value);
            }
            let child = x.right.take();
            let nr = match child {
                None => {
                    let leaf = Box::new(Node::new(key, value));
                    proof {
                        assert(bb =~= Seq::<(i64, V)>::empty());
                        assert(inorder(Some(leaf)) =~= ins(bb, key, value));
                        assert(hr == 0 && ht(Some(leaf)) == 1);
                        assert(heights_ok(Some(leaf)) && balanced(Some(leaf)) && ordered(
                            Some(leaf),
                        ));
                    }
                    leaf
                },
                Some(rc) => Node::insert_aux(rc, key, value),
            };
            proof {
                assert(inorder(Some(nr)) == ins(bb, key, value));
                assert(hr <= ht(Some(nr)) <= hr + 1);
                assert(ht(Some(nr)) == hr + 1 && ht(Some(nr)) >= 2 ==> ht(nr.left) != ht(
                    nr.right,
                ));
                lemma_ins_keys_above(bb, n0.key, key, value);
                assert(keys_above(inorder(Some(nr)), n0.key));
            }
            x.right = Some(nr);
        }
        x.update_height();
        proof {
            assert(heights_ok(Some(x)));
            assert(ordered(Some(x)));
            assert(inorder(Some(x)) =~= ins(inorder(Some(n0)), key, value));
        }
        let ghost s_target = ins(inorder(Some(n0)), key, value);
        let ghost lh = ht(x.left);
        let ghost rh = ht(x.right);
        let balance = x.balance_factor();
        if balance > 1 {
            proof {
                assert(lh == hl + 1 && hl == hr + 1 && rh == hr);
            }
            let l = x.left.take().unwrap();
            proof {
                assert(ht(Some(l)) == rh + 2 && ht(Some(l)) >= 2);
                assert(ht(l.left) != ht(l.right));
                assert(max_nat(ht(l.left), ht(l.right)) == rh + 1);
            }
            let llh = l.left_height();
            let lrh = l.right_height();
            if llh > lrh {
                proof {
                    assert(llh == rh + 1 && lrh == rh);
                }
                x.left = Some(l);
                proof {
                    assert(ordered(Some(x)) && heights_ok(Some(x)));
                    assert(inorder(Some(x)) == s_target);
                    assert(ht(Some(x)) == rh + 3);
                }
                x = Node::rotate_right(x);
                proof {
                    let inner = x.right.unwrap();
                    assert(balanced(l.left) && balanced(l.right));
                    assert(inner.left == l.right && inner.right == n0.right);
                    assert(ht(x.right) == rh + 1);
                    assert(balanced(Some(inner)));
                    assert(ht(Some(x)) == rh + 2);
                    assert(balanced(Some(x)));
                }
            } else {
                proof {
                    assert(lrh == rh + 1 && llh == rh);
                    lemma_pos_ht_some(l.right);
                }
                let ghost l0 = l;
                let l2 = Node::rotate_left(l);
                proof {
                    assert(ht(l2.left) == 1 + max_nat(ht(l0.left), ht(l0.right.unwrap().left)));
                    assert(max_nat(
                        ht(l0.right.unwrap().left),
                        ht(l0.right.unwrap().right),
                    ) == rh);
                    assert(ht(Some(l2)) <= rh + 2);
                    assert(keys_below(inorder(Some(l2)), x.key));
                }
                x.left = Some(l2);
                proof {
                    assert(ordered(Some(x)) && heights_ok(Some(x)));
                    assert(inorder(Some(x)) =~= s_target);
                }
                x = Node::rotate_right(x);
                proof {
                    let lr = l0.right.unwrap();
                    let inner1 = x.left.unwrap();
                    let inner2 = x.right.unwrap();
                    assert(balanced(l0.left) && balanced(l0.right));
                    assert(balanced(lr.left) && balanced(lr.right));
                    assert(max_nat(ht(lr.left), ht(lr.right)) == rh);
                    assert(inner1.left == l0.left && inner1.right == lr.left);
                    assert(inner2.left == lr.right && inner2.right == n0.right);
                    assert(ht(x.right) == 1 + max_nat(ht(lr.right), rh));
                    assert(ht(Some(inner1)) == rh + 1);
                    assert(ht(Some(inner2)) == rh + 1);
                    assert(balanced(Some(inner1)));
                    assert(balanced(Some(inner2)));
                    assert(ht(Some(x)) == rh + 2);
                    assert(balanced(Some(x)));
                }
            }
        } else if balance < -1 {
            proof {
                assert(rh == hr + 1 && hr == hl + 1 && lh == hl);
            }
            let rc = x.right.take().unwrap();
            proof {
                assert(ht(Some(rc)) == lh + 2 && ht(Some(rc)) >= 2);
                assert(ht(rc.left) != ht(rc.right));
                assert(max_nat(ht(rc.left), ht(rc.right)) == lh + 1);
            }
            let rlh = rc.left_height();
            let rrh = rc.right_height();
            if rrh > rlh {
                proof {
                    assert(rrh == lh + 1 && rlh == lh);
                }
                x.right = Some(rc);
                proof {
                    assert(ordered(Some(x)) && heights_ok(Some(x)));
                    assert(inorder(Some(x)) == s_target);
                    assert(ht(Some(x)) == lh + 3);
                }
                x = Node::rotate_left(x);
                proof {
                    let inner = x.left.unwrap();
                    assert(balanced(rc.left) && balanced(rc.right));
                    assert(inner.right == rc.left && inner.left == n0.left);
                    assert(ht(x.left) == lh + 1);
                    assert(balanced(Some(inner)));
                    assert(ht(Some(x)) == lh + 2);
                    assert(balanced(Some(x)));
                }
            } else {
                proof {
                    assert(rlh == lh + 1 && rrh == lh);
                    lemma_pos_ht_some(rc.left);
                }
                let ghost r0 = rc;
                let r2 = Node::rotate_right(rc);
                proof {
                    assert(ht(r2.right) == 1 + max_nat(ht(r0.left.unwrap().right), ht(r0.right)));
                    assert(max_nat(
                        ht(r0.left.unwrap().left),
                        ht(r0.left.unwrap().right),
                    ) == lh);
                    assert(ht(Some(r2)) <= lh + 2);
                    assert(keys_above(inorder(Some(r2)), x.key));
                }
                x.right = Some(r2);
                proof {
                    assert(ordered(Some(x)) && heights_ok(Some(x)));
                    assert(inorder(Some(x)) =~= s_target);
                }
                x = Node::rotate_left(x);
                proof {
                    let rl = r0.left.unwrap();
                    let inner1 = x.right.unwrap();
                    let inner2 = x.left.unwrap();
                    assert(balanced(r0.left) && balanced(r0.right));
                    assert(balanced(rl.left) && balanced(rl.right));
                    assert(max_nat(ht(rl.left), ht(rl.right)) == lh);
                    assert(inner1.right == r0.right && inner1.left == rl.right);
                    assert(inner2.right == rl.left && inner2.left == n0.left);
                    assert(ht(x.left) == 1 + max_nat(lh, ht(rl.left)));
                    assert(ht(Some(inner1)) == lh + 1);
                    assert(ht(Some(inner2)) == lh + 1);
                    assert(balanced(Some(inner1)));
                    assert(balanced(Some(inner2)));
                    assert(ht(Some(x)) == lh + 2);
                    assert(balanced(Some(x)));
                }
            }
        }
        proof {
            assert(balanced(Some(x)));
            assert(wf(Some(x)));
            assert(inorder(Some(x)) == s_target);
        }
        x
    }

    /// Join when the left tree is more than one taller than the right one:
    /// descend the right spine of the left tree until its height meets the
    /// right tree's, attach the middle node there, and restore balance while
    /// unwinding. Runs in time proportional to the height difference. The
    /// result keeps the left tree's height or exceeds it by one; when it
    /// grows, the new root leans right, which is what lets the caller fix it
    /// with a single rotation.
    #[verifier::rlimit(50)]
    fn join_right(mid: Box<Node<V>>, lt: Box<Node<V>>, rt: Option<Box<Node<V>>>) -> (r: Box<
        Node<V>,
    >)
        requires
            mid.left is None,
            mid.right is None,
            wf(Some(lt)),
            wf(rt),
            keys_below(inorder(Some(lt)), mid.key),
            keys_above(inorder(rt), mid.key),
            ht(Some(lt)) > ht(rt) + 1,
            ht(Some(lt)) + 1 < usize::MAX,
        ensures
            wf(Some(r)),
            inorder(Some(r)) == inorder(Some(lt)) + seq![(mid.key, mid.value)] + inorder(rt),
            ht(Some(lt)) <= ht(Some(r)) <= ht(Some(lt)) + 1,
            ht(Some(r)) == ht(Some(lt)) + 1 ==> ht(r.left) < ht(r.right),
        decreases ht(Some(lt)),
    {
        let ghost lt0 = lt;
        let ghost rt0 = rt;
        let ghost mid0 = mid;
        let ghost hla = ht(lt0.left);
        let ghost hc = ht(lt0.right);
        let ghost hrt = ht(rt0);
        let ghost cc = inorder(lt0.right);
        let ghost rr = inorder(rt0);
        let ghost lk = seq![(lt0.key, lt0.value)];
        let ghost tgt = inorder(Some(lt0)) + seq![(mid0.key, mid0.value)] + inorder(rt0);
        proof {
            assert(heights_ok(lt0.left) && heights_ok(lt0.right) && balanced(lt0.left) && balanced(
                lt0.right,
            ) && ordered(lt0.left) && ordered(lt0.right));
            assert(keys_below(inorder(lt0.left), lt0.key) && keys_above(cc, lt0.key));
            assert(ht(Some(lt0)) == 1 + max_nat(hla, hc));
            assert(inorder(Some(lt0)) == inorder(lt0.left) + lk + cc);
            lemma_keys_below_cat(inorder(lt0.left) + lk, cc, mid0.key);
            lemma_keys_below_cat(inorder(lt0.left), lk, mid0.key);
            assert(keys_below(cc, mid0.key));
            assert(lk[0] == (lt0.key, lt0.value));
            lemma_inorder_unfold(lt0);
            assert(inorder(Some(lt0))[inorder(lt0.left).len() as int].0 == lt0.key);
            assert(lt0.key < mid0.key);
            // every key to the right of this spine lies above the left root's key
            assert forall|i: int| 0 <= i < rr.len() implies (#[trigger] rr[i]).0 > lt0.key by {
                assert(rr[i].0 > mid0.key);
            }
            assert(keys_above(rr, lt0.key));
            assert(keys_above(seq![(mid0.key, mid0.value)], lt0.key));
        }
        let mut l = lt;
        let ll = l.left.take();
        let c = l.right.take();
        let hc_exec = Node::height_opt(&c);
        let hrt_exec = Node::height_opt(&rt);
        if hc_exec <= hrt_exec + 1 {
            // the spine has met the right tree: hang the middle node here
            proof {
                assert(hc >= hrt);
            }
            let mut m = mid;
            m.left = c;
            m.right = rt;
            m.update_height();
            proof {
                assert(ht(Some(m)) == hc + 1);
                assert(heights_ok(Some(m)) && balanced(Some(m)) && ordered(Some(m)));
                assert(inorder(Some(m)) == cc + seq![(mid0.key, mid0.value)] + rr);
                lemma_keys_above_cat(cc, seq![(mid0.key, mid0.value)], lt0.key);
                lemma_keys_above_cat(cc + seq![(mid0.key, mid0.value)], rr, lt0.key);
                assert(keys_above(inorder(Some(m)), lt0.key));
            }
            l.left = ll;
            let mht = m.height;
            let llh = Node::height_opt(&l.left);
            if mht <= llh + 1 {
                l.right = Some(m);
                l.update_height();
                proof {
                    assert(heights_ok(Some(l)) && balanced(Some(l)) && ordered(Some(l)));
                    assert(inorder(Some(l)) =~= tgt);
                }
                l
            } else {
                // the middle node grew the spine by two: double rotation
                proof {
                    assert(hc == hla + 1 && hrt == hla);
                    lemma_pos_ht_some(m.left);
                    assert(ht(Some(m)) < usize::MAX);
                }
                let ghost m0 = m;
                let m2 = Node::rotate_right(m);
                proof {
                    let cn = m0.left.unwrap();
                    assert(balanced(cn.left) && balanced(cn.right));
                    assert(max_nat(ht(cn.left), ht(cn.right)) == hla);
                    assert(ht(m2.right) == 1 + max_nat(ht(cn.right), hrt));
                    assert(keys_above(inorder(Some(m2)), lt0.key));
                }
                l.right = Some(m2);
                proof {
                    assert(ordered(Some(l)) && heights_ok(l.left) && heights_ok(l.right));
                    assert(ht(Some(l)) < usize::MAX);
                }
                let out = Node::rotate_left(l);
                proof {
                    let cn = m0.left.unwrap();
                    let inner2 = out.left.unwrap();
                    let innerm = m2.right.unwrap();
                    assert(balanced(ll) && balanced(cn.left));
                    assert(inner2.left == ll && inner2.right == cn.left);
                    assert(innerm.left == cn.right && innerm.right == rt0);
                    assert(ht(out.left) == 1 + max_nat(hla, ht(cn.left)));
                    assert(balanced(Some(inner2)));
                    assert(balanced(Some(innerm)));
                    assert(ht(Some(inner2)) == hla + 1 && ht(Some(innerm)) == hla + 1);
                    assert(balanced(Some(out)));
                    assert(ht(Some(out)) == hla + 2);
                    assert(inorder(Some(out)) =~= tgt);
                }
                out
            }
        } else {
            // the left tree is still too tall: recurse down its right spine
            proof {
                lemma_pos_ht_some(c);
                assert(hc > hrt + 1);
            }
            let c_node = c.unwrap();
            let t = Node::join_right(mid, c_node, rt);
            proof {
                assert(heights_ok(Some(t)));
                assert(t.height == ht(Some(t)));
            }
            let bal_ok = t.height <= Node::height_opt(&ll) + 1;
            l.left = ll;
            l.right = Some(t);
            l.update_height();
            proof {
                assert(inorder(Some(t)) == cc + seq![(mid0.key, mid0.value)] + rr);
                lemma_keys_above_cat(cc, seq![(mid0.key, mid0.value)], lt0.key);
                lemma_keys_above_cat(cc + seq![(mid0.key, mid0.value)], rr, lt0.key);
                assert(keys_above(inorder(Some(t)), lt0.key));
                assert(ordered(Some(l)) && heights_ok(Some(l)));
                assert(inorder(Some(l)) =~= tgt);
                assert(hc <= ht(Some(t)) <= hc + 1);
            }
            if bal_ok {
                proof {
                    assert(balanced(Some(l)));
                }
                l
            } else {
                // the joined spine grew past the sibling: one left rotation
                proof {
                    assert(ht(Some(t)) == hla + 2 && hc == hla + 1);
                    assert(ht(Some(t)) == hc + 1);
                    assert(ht(t.left) < ht(t.right));
                    assert(ht(t.right) == hla + 1 && ht(t.left) == hla);
                    lemma_pos_ht_some(l.right);
                    assert(ht(Some(l)) < usize::MAX);
                }
                let ghost t0 = l.right.unwrap();
                let out = Node::rotate_left(l);
                proof {
                    let inner = out.left.unwrap();
                    assert(balanced(t0.left) && balanced(t0.right));
                    assert(inner.left == ll && inner.right == t0.left);
                    assert(ht(out.left) == 1 + max_nat(hla, ht(t0.left)));
                    assert(balanced(Some(inner)));
                    assert(ht(Some(inner)) == hla + 1);
                    assert(out.right == t0.right);
                    assert(balanced(Some(out)));
                    assert(ht(Some(out)) == hla + 2);
                    assert(ht(Some(out)) == ht(Some(lt0)));
                    assert(inorder(Some(out)) =~= tgt);
                }
                out
            }
        }
    }

    /// Mirror of `join_right`, for a right tree more than one taller than the
    /// left one: descend the left spine of the right tree. When the result
    /// grows past the right tree's height, its root leans left.
    #[verifier::rlimit(50)]
    fn join_left(mid: Box<Node<V>>, lt: Option<Box<Node<V>>>, rt: Box<Node<V>>) -> (r: Box<
        Node<V>,
    >)
        requires
            mid.left is None,
            mid.right is None,
            wf(lt),
            wf(Some(rt)),
            keys_below(inorder(lt), mid.key),
            keys_above(inorder(Some(rt)), mid.key),
            ht(Some(rt)) > ht(lt) + 1,
            ht(Some(rt)) + 1 < usize::MAX,
        ensures
            wf(Some(r)),
            inorder(Some(r)) == inorder(lt) + seq![(mid.key, mid.value)] + inorder(Some(rt)),
            ht(Some(rt)) <= ht(Some(r)) <= ht(Some(rt)) + 1,
            ht(Some(r)) == ht(Some(rt)) + 1 ==> ht(r.left) > ht(r.right),
        decreases ht(Some(rt)),
    {
        let ghost rt0 = rt;
        let ghost lt0 = lt;
        let ghost mid0 = mid;
        let ghost hra = ht(rt0.right);
        let ghost hc = ht(rt0.left);
        let ghost hlt = ht(lt0);
        let ghost cc = inorder(rt0.left);
        let ghost ss = inorder(lt0);
        let ghost rk = seq![(rt0.key, rt0.value)];
        let ghost tgt = inorder(lt0) + seq![(mid0.key, mid0.value)] + inorder(Some(rt0));
        proof {
            assert(heights_ok(rt0.left) && heights_ok(rt0.right) && balanced(rt0.left) && balanced(
                rt0.right,
            ) && ordered(rt0.left) && ordered(rt0.right));
            assert(keys_below(cc, rt0.key) && keys_above(inorder(rt0.right), rt0.key));
            assert(ht(Some(rt0)) == 1 + max_nat(hc, hra));
            assert(inorder(Some(rt0)) == cc + rk + inorder(rt0.right));
            lemma_keys_above_cat(cc + rk, inorder(rt0.right), mid0.key);
            lemma_keys_above_cat(cc, rk, mid0.key);
            assert(keys_above(cc, mid0.key));
            assert(rk[0] == (rt0.key, rt0.value));
            lemma_inorder_unfold(rt0);
            assert(inorder(Some(rt0))[inorder(rt0.left).len() as int].0 == rt0.key);
            assert(rt0.key > mid0.key);
            // every key to the left of this spine lies below the right root's key
            assert forall|i: int| 0 <= i < ss.len() implies (#[trigger] ss[i]).0 < rt0.key by {
                assert(ss[i].0 < mid0.key);
            }
            assert(keys_below(ss, rt0.key));
            assert(keys_below(seq![(mid0.key, mid0.value)], rt0.key));
        }
        let mut rn = rt;
        let rr = rn.right.take();
        let c = rn.left.take();
        let hc_exec = Node::height_opt(&c);
        let hlt_exec = Node::height_opt(&lt);
        if hc_exec <= hlt_exec + 1 {
            // the spine has met the left tree: hang the middle node here
            proof {
                assert(hc >= hlt);
            }
            let mut m = mid;
            m.left = lt;
            m.right = c;
            m.update_height();
            proof {
                assert(ht(Some(m)) == hc + 1);
                assert(heights_ok(Some(m)) && balanced(Some(m)) && ordered(Some(m)));
                assert(inorder(Some(m)) == ss + seq![(mid0.key, mid0.value)] + cc);
                lemma_keys_below_cat(ss, seq![(mid0.key, mid0.value)], rt0.key);
                lemma_keys_below_cat(ss + seq![(mid0.key, mid0.value)], cc, rt0.key);
                assert(keys_below(inorder(Some(m)), rt0.key));
            }
            rn.right = rr;
            let mht = m.height;
            let rrh = Node::height_opt(&rn.right);
            if mht <= rrh + 1 {
                rn.left = Some(m);
                rn.update_height();
                proof {
                    assert(heights_ok(Some(rn)) && balanced(Some(rn)) && ordered(Some(rn)));
                    assert(inorder(Some(rn)) =~= tgt);
                }
                rn
            } else {
                // the middle node grew the spine by two: double rotation
                proof {
                    assert(hc == hra + 1 && hlt == hra);
                    lemma_pos_ht_some(m.right);
                    assert(ht(Some(m)) < usize::MAX);
                }
                let ghost m0 = m;
                let m2 = Node::rotate_left(m);
                proof {
                    let cn = m0.right.unwrap();
                    assert(balanced(cn.left) && balanced(cn.right));
                    assert(max_nat(ht(cn.left), ht(cn.right)) == hra);
                    assert(ht(m2.left) == 1 + max_nat(hlt, ht(cn.left)));
                    assert(keys_below(inorder(Some(m2)), rt0.key));
                }
                rn.left = Some(m2);
                proof {
                    assert(ordered(Some(rn)) && heights_ok(rn.left) && heights_ok(rn.right));
                    assert(ht(Some(rn)) < usize::MAX);
                }
                let out = Node::rotate_right(rn);
                proof {
                    let cn = m0.right.unwrap();
                    let inner2 = out.right.unwrap();
                    let innerm = m2.left.unwrap();
                    assert(balanced(rr) && balanced(cn.right));
                    assert(inner2.right == rr && inner2.left == cn.right);
                    assert(innerm.right == cn.left && innerm.left == lt0);
                    assert(ht(out.right) == 1 + max_nat(ht(cn.right), hra));
                    assert(balanced(Some(inner2)));
                    assert(balanced(Some(innerm)));
                    assert(ht(Some(inner2)) == hra + 1 && ht(Some(innerm)) == hra + 1);
                    assert(balanced(Some(out)));
                    assert(ht(Some(out)) == hra + 2);
                    assert(inorder(Some(out)) =~= tgt);
                }
                out
            }
        } else {
            // the right tree is still too tall: recurse down its left spine
            proof {
                lemma_pos_ht_some(c);
                assert(hc > hlt + 1);
            }
            let c_node = c.unwrap();
            let t = Node::join_left(mid, lt, c_node);
            proof {
                assert(heights_ok(Some(t)));
                assert(t.height == ht(Some(t)));
            }
            let bal_ok = t.height <= Node::height_opt(&rr) + 1;
            rn.right = rr;
            rn.left = Some(t);
            rn.update_height();
            proof {
                assert(inorder(Some(t)) == ss + seq![(mid0.key, mid0.value)] + cc);
                lemma_keys_below_cat(ss, seq![(mid0.key, mid0.value)], rt0.key);
                lemma_keys_below_cat(ss + seq![(mid0.key, mid0.value)], cc, rt0.key);
                assert(keys_below(inorder(Some(t)), rt0.key));
                assert(ordered(Some(rn)) && heights_ok(Some(rn)));
                assert(inorder(Some(rn)) =~= tgt);
                assert(hc <= ht(Some(t)) <= hc + 1);
            }
            if bal_ok {
                proof {
                    assert(balanced(Some(rn)));
                }
                rn
            } else {
                // the joined spine grew past the sibling: one right rotation
                proof {
                    assert(ht(Some(t)) == hra + 2 && hc == hra + 1);
                    assert(ht(Some(t)) == hc + 1);
                    assert(ht(t.left) > ht(t.right));
                    assert(ht(t.left) == hra + 1 && ht(t.right) == hra);
                    lemma_pos_ht_some(rn.left);
                    assert(ht(Some(rn)) < usize::MAX);
                }
                let ghost t0 = rn.left.unwrap();
                let out = Node::rotate_right(rn);
                proof {
                    let inner = out.right.unwrap();
                    assert(balanced(t0.left) && balanced(t0.right));
                    assert(inner.right == rr && inner.left == t0.right);
                    assert(ht(out.right) == 1 + max_nat(ht(t0.right), hra));
                    assert(balanced(Some(inner)));
                    assert(ht(Some(inner)) == hra + 1);
                    assert(out.left == t0.left);
                    assert(balanced(Some(out)));
                    assert(ht(Some(out)) == hra + 2);
                    assert(ht(Some(out)) == ht(Some(rt0)));
                    assert(inorder(Some(out)) =~= tgt);
                }
                out
            }
        }
    }

    /// Reassemble two balanced trees and a connecting middle node into one
    /// balanced tree: when the heights differ by at most one the middle node
    /// becomes the root directly; otherwise the taller side is descended by
    /// `join_right` or `join_left`.
    fn join(mid: Box<Node<V>>, lt: Option<Box<Node<V>>>, rt: Option<Box<Node<V>>>) -> (r: Box<
        Node<V>,
    >)
        requires
            mid.left is None,
            mid.right is None,
            wf(lt),
            wf(rt),
            keys_below(inorder(lt), mid.key),
            keys_above(inorder(rt), mid.key),
            ht(lt) + 1 < usize::MAX,
            ht(rt) + 1 < usize::MAX,
        ensures
            wf(Some(r)),
            inorder(Some(r)) == inorder(lt) + seq![(mid.key, mid.value)] + inorder(rt),
            max_nat(ht(lt), ht(rt)) <= ht(Some(r)) <= max_nat(ht(lt), ht(rt)) + 1,
    {
        let hl = Node::height_opt(&lt);
        let hr = Node::height_opt(&rt);
        if hl > hr + 1 {
            proof {
                lemma_pos_ht_some(lt);
            }
            Node::join_right(mid, lt.unwrap(), rt)
        } else if hr > hl + 1 {
            proof {
                lemma_pos_ht_some(rt);
            }
            Node::join_left(mid, lt, rt.unwrap())
        } else {
            let mut m = mid;
            m.left = lt;
            m.right = rt;
            m.update_height();
            proof {
                assert(heights_ok(Some(m)) && balanced(Some(m)) && ordered(Some(m)));
                assert(ht(Some(m)) == 1 + max_nat(ht(lt), ht(rt)));
            }
            m
        }
    }

    /// Standard binary-search-tree descent: equal keys answer here, smaller
    /// keys descend left, larger keys descend right.
    fn search_aux(&self, key: i64) -> (r: Option<&V>)
        requires
            ordered(self.left),
            ordered(self.right),
            keys_below(inorder(self.left), self.key),
            keys_above(inorder(self.right), self.key),
        ensures
            ({
                let s = inorder(self.left) + seq![(self.key, self.value)] + inorder(self.right);
                match r {
                    Some(v) => lookup(s, key) == Some(*v),
                    None => lookup(s, key) is None,
                }
            }),
        decreases self,
    {
        proof {
            lemma_lookup_parts(
                inorder(self.left),
                self.key,
                self.value,
                inorder(self.right),
                key,
            );
        }
        if key == self.key {
            Some(&self.value)
        } else if key < self.key {
            match &self.left {
                Some(l) => l.search_aux(key),
                None => None,
            }
        } else {
            match &self.right {
                Some(rc) => rc.search_aux(key),
                None => None,
            }
        }
    }
}

/// The ordering and traversal facts of a completed right rotation: with the
/// old root `n` and the rebuilt subtree root `r`, the result is ordered and
/// traverses in the same order as before.
proof fn lemma_rotate_right_shape<V>(n: Box<Node<V>>, r: Box<Node<V>>)
    requires
        n.left is Some,
        ordered(Some(n)),
        r.key == n.left.unwrap().key,
        r.value == n.left.unwrap().value,
        r.left == n.left.unwrap().left,
        r.right matches Some(inner) && inner.key == n.key && inner.value == n.value && inner.left
            == n.left.unwrap().right && inner.right == n.right,
    ensures
        ordered(Some(r)),
        inorder(Some(r)) == inorder(Some(n)),
{
    let l = n.left.unwrap();
    let inner = r.right.unwrap();
    assert(ordered(Some(l)) && ordered(n.right) && keys_below(inorder(n.left), n.key)
        && keys_above(inorder(n.right), n.key));
    assert(ordered(l.left) && ordered(l.right) && keys_below(inorder(l.left), l.key)
        && keys_above(inorder(l.right), l.key));
    lemma_ordered_root_keys(n);
    assert(l.key < n.key);
    // the left child's right subtree lies below the old root's key
    assert(inorder(Some(l)) == inorder(l.left) + seq![(l.key, l.value)] + inorder(l.right));
    lemma_keys_below_cat(inorder(l.left) + seq![(l.key, l.value)], inorder(l.right), n.key);
    assert(keys_below(inorder(l.right), n.key));
    // everything in the inner node's traversal lies above the new root's key
    assert(keys_above(inorder(inner.left), l.key));
    assert forall|i: int| 0 <= i < inorder(n.right).len() implies #[trigger] inorder(
        n.right,
    )[i].0 > l.key by {
        assert(inorder(n.right)[i].0 > n.key);
    }
    assert(seq![(n.key, n.value)][0].0 == n.key);
    assert(keys_above(seq![(n.key, n.value)], l.key));
    lemma_keys_above_cat(inorder(inner.left), seq![(n.key, n.value)], l.key);
    lemma_keys_above_cat(inorder(inner.left) + seq![(n.key, n.value)], inorder(n.right), l.key);
    assert(inorder(Some(inner)) == inorder(inner.left) + seq![(inner.key, inner.value)] + inorder(
        inner.right,
    ));
    assert(keys_above(inorder(Some(inner)), r.key));
    assert(ordered(Some(inner)));
    assert(ordered(Some(r)));
    // same in-order traversal
    assert(inorder(Some(r)) =~= inorder(Some(n)));
}

/// The mirror of `lemma_rotate_right_shape`, for a completed left rotation.
proof fn lemma_rotate_left_shape<V>(n: Box<Node<V>>, r: Box<Node<V>>)
    requires
        n.right is Some,
        ordered(Some(n)),
        r.key == n.right.unwrap().key,
        r.value == n.right.unwrap().value,
        r.right == n.right.unwrap().right,
        r.left matches Some(inner) && inner.key == n.key && inner.value == n.value && inner.right
            == n.right.unwrap().left && inner.left == n.left,
    ensures
        ordered(Some(r)),
        inorder(Some(r)) == inorder(Some(n)),
{
    let rc = n.right.unwrap();
    let inner = r.left.unwrap();
    assert(ordered(Some(rc)) && ordered(n.left) && keys_below(inorder(n.left), n.key)
        && keys_above(inorder(n.right), n.key));
    assert(ordered(rc.left) && ordered(rc.right) && keys_below(inorder(rc.left), rc.key)
        && keys_above(inorder(rc.right), rc.key));
    lemma_ordered_root_keys(n);
    assert(rc.key > n.key);
    // the right child's left subtree lies above the old root's key
    assert(inorder(Some(rc)) == inorder(rc.left) + seq![(rc.key, rc.value)] + inorder(rc.right));
    lemma_keys_above_cat(inorder(rc.left) + seq![(rc.key, rc.value)], inorder(rc.right), n.key);
    lemma_keys_above_cat(inorder(rc.left), seq![(rc.key, rc.value)], n.key);
    assert(keys_above(inorder(rc.left), n.key));
    // everything in the inner node's traversal lies below the new root's key
    assert(keys_below(inorder(inner.right), rc.key));
    assert forall|i: int| 0 <= i < inorder(n.left).len() implies #[trigger] inorder(
        n.left,
    )[i].0 < rc.key by {
        assert(inorder(n.left)[i].0 < n.key);
    }
    assert(seq![(n.key, n.value)][0].0 == n.key);
    assert(keys_below(seq![(n.key, n.value)], rc.key));
    lemma_keys_below_cat(inorder(n.left), seq![(n.key, n.value)], rc.key);
    lemma_keys_below_cat(inorder(n.left) + seq![(n.key, n.value)], inorder(inner.right), rc.key);
    assert(inorder(Some(inner)) == inorder(inner.left) + seq![(inner.key, inner.value)] + inorder(
        inner.right,
    ));
    assert(keys_below(inorder(Some(inner)), r.key));
    assert(ordered(Some(inner)));
    assert(ordered(Some(r)));
    assert(inorder(Some(r)) =~= inorder(Some(n)));
}

} // verus!

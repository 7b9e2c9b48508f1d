use vstd::prelude::*;

use crate::key::OrderedKey;

verus! {

/// The color tag of a node.
#[derive(Clone, Copy, Debug, PartialEq, Eq, Structural)]
pub enum Color {
    Red,
    Black,
}

/// One node of a tree: a key, its value, a color and two owned children.
#[derive(Debug)]
pub struct Node<K, V> {
    pub key: K,
    pub value: V,
    pub color: Color,
    pub left: Option<Box<Node<K, V>>>,
    pub right: Option<Box<Node<K, V>>>,
}

/// A possibly absent subtree.
pub type Link<K, V> = Option<Box<Node<K, V>>>;

/// `x` lies above the optional lower bound.
pub open spec fn above(lo: Option<int>, x: int) -> bool {
    match lo {
        None => true,
        Some(a) => a < x,
    }
}

/// `x` lies below the optional upper bound.
pub open spec fn below(x: int, hi: Option<int>) -> bool {
    match hi {
        None => true,
        Some(b) => x < b,
    }
}

/// The search-tree order: every key of the subtree lies strictly between the
/// bounds, and each node's key separates its left keys from its right keys.
pub open spec fn ordered<K: OrderedKey, V>(l: Link<K, V>, lo: Option<int>, hi: Option<int>) -> bool
    decreases l,
{
    match l {
        None => true,
        Some(n) => {
            &&& above(lo, n.key.rank())
            &&& below(n.key.rank(), hi)
            &&& ordered(n.left, lo, Some(n.key.rank()))
            &&& ordered(n.right, Some(n.key.rank()), hi)
        },
    }
}

/// The value that a search for `k` finds in the subtree.
pub open spec fn lookup<K: OrderedKey, V>(l: Link<K, V>, k: K) -> Option<V>
    decreases l,
{
    match l {
        None => None,
        Some(n) => {
            if k.rank() < n.key.rank() {
                lookup(n.left, k)
            } else if k.rank() > n.key.rank() {
                lookup(n.right, k)
            } else {
                Some(n.value)
            }
        },
    }
}

/// The entries of the subtree in order: left subtree, node, right subtree.
pub open spec fn inorder<K, V>(l: Link<K, V>) -> Seq<(K, V)>
    decreases l,
{
    match l {
        None => Seq::empty(),
        Some(n) => inorder(n.left) + seq![(n.key, n.value)] + inorder(n.right),
    }
}

/// The subtree's root is red.
pub open spec fn red_root<K, V>(l: Link<K, V>) -> bool {
    l is Some && l.unwrap().color == Color::Red
}

/// The red-black rules with black height `h`: no red node has a red child,
/// and every path from the subtree's root down to an absent link meets `h`
/// black nodes.
pub open spec fn rb<K, V>(l: Link<K, V>, h: int) -> bool
    decreases l,
{
    match l {
        None => h == 0,
        Some(n) => {
            let ch = if n.color == Color::Black { h - 1 } else { h };
            &&& rb(n.left, ch)
            &&& rb(n.right, ch)
            &&& (n.color == Color::Red ==> !red_root(n.left) && !red_root(n.right))
        },
    }
}

/// A red root whose children keep the rules with black height `h`, though
/// one of them may be red too.
pub open spec fn infrared<K, V>(l: Link<K, V>, h: int) -> bool {
    &&& l is Some
    &&& l.unwrap().color == Color::Red
    &&& rb(l.unwrap().left, h)
    &&& rb(l.unwrap().right, h)
}

/// The number of black nodes on the leftmost path.
pub open spec fn black_height<K, V>(l: Link<K, V>) -> int
    decreases l,
{
    match l {
        None => 0,
        Some(n) => black_height(n.left) + if n.color == Color::Black { 1int } else { 0int },
    }
}

/// The black height of a subtree that keeps the rules is its leftmost count.
pub proof fn lemma_black_height<K, V>(l: Link<K, V>, h: int)
    requires
        rb(l, h),
    ensures
        h == black_height(l),
    decreases l,
{
    match l {
        None => {},
        Some(n) => {
            let ch = if n.color == Color::Black { h - 1 } else { h };
            lemma_black_height(n.left, ch);
        },
    }
}

/// Whether the subtree's root is red.
pub fn is_red<K, V>(l: &Link<K, V>) -> (r: bool)
    ensures
        r == red_root(*l),
{
    match l {
        None => false,
        Some(n) => n.color == Color::Red,
    }
}

/// Searches the subtree for `k`.
pub fn get_in<'a, K: OrderedKey, V>(l: &'a Link<K, V>, k: &K) -> (r: Option<&'a V>)
    ensures
        (match r {
            Some(v) => lookup(*l, *k) == Some(*v),
            None => lookup(*l, *k) is None,
        }),
    decreases l,
{
    match l {
        None => None,
        Some(n) => {
            match k.compare(&n.key) {
                std::cmp::Ordering::Less => get_in(&n.left, k),
                std::cmp::Ordering::Greater => get_in(&n.right, k),
                std::cmp::Ordering::Equal => Some(&n.value),
            }
        },
    }
}

/// Promotes the left child to the root of the subtree.
#[verifier::rlimit(50)]
fn rotate_right<K: OrderedKey, V>(n: Box<Node<K, V>>, Ghost(lo): Ghost<Option<int>>, Ghost(hi): Ghost<Option<int>>) -> (r: Box<Node<K, V>>)
    requires
        n.left is Some,
        ordered(Some(n), lo, hi),
    ensures
        ordered(Some(r), lo, hi),
        inorder(Some(r)) == inorder(Some(n)),
        forall|j: K| lookup(Some(r), j) == lookup(Some(n), j),
        r.left == n.left.unwrap().left,
        r.right.is_some(),
        r.right.unwrap().left == n.left.unwrap().right,
        r.right.unwrap().right == n.right,
        r.right.unwrap().color == n.color,
        r.color == n.left.unwrap().color,
{
    proof {
        reveal_with_fuel(inorder, 3);
        reveal_with_fuel(ordered, 3);
        reveal_with_fuel(lookup, 3);
    }
    let Node { key, value, color, left, right } = *n;
    let l = left.unwrap();
    let Node { key: lkey, value: lvalue, color: lcolor, left: ll, right: lr } = *l;
    let inner = Box::new(Node { key, value, color, left: lr, right });
    let r = Box::new(Node { key: lkey, value: lvalue, color: lcolor, left: ll, right: Some(inner) });
    assert(inorder(Some(r)) =~= inorder(Some(n)));
    r
}

/// Promotes the right child to the root of the subtree.
#[verifier::rlimit(50)]
fn rotate_left<K: OrderedKey, V>(n: Box<Node<K, V>>, Ghost(lo): Ghost<Option<int>>, Ghost(hi): Ghost<Option<int>>) -> (r: Box<Node<K, V>>)
    requires
        n.right is Some,
        ordered(Some(n), lo, hi),
    ensures
        ordered(Some(r), lo, hi),
        inorder(Some(r)) == inorder(Some(n)),
        forall|j: K| lookup(Some(r), j) == lookup(Some(n), j),
        r.right == n.right.unwrap().right,
        r.left.is_some(),
        r.left.unwrap().right == n.right.unwrap().left,
        r.left.unwrap().left == n.left,
        r.left.unwrap().color == n.color,
        r.color == n.right.unwrap().color,
{
    proof {
        reveal_with_fuel(inorder, 3);
        reveal_with_fuel(ordered, 3);
        reveal_with_fuel(lookup, 3);
    }
    let Node { key, value, color, left, right } = *n;
    let x = right.unwrap();
    let Node { key: rkey, value: rvalue, color: rcolor, left: rl, right: rr } = *x;
    let inner = Box::new(Node { key, value, color, left, right: rl });
    let r = Box::new(Node { key: rkey, value: rvalue, color: rcolor, left: Some(inner), right: rr });
    assert(inorder(Some(r)) =~= inorder(Some(n)));
    r
}

/// Colors the root of a subtree black, if there is one.
pub fn paint_black<K: OrderedKey, V>(l: &mut Link<K, V>)
    ensures
        inorder(*final(l)) == inorder(*old(l)),
        forall|j: K| lookup(*final(l), j) == lookup(*old(l), j),
        forall|lo: Option<int>, hi: Option<int>| ordered(*final(l), lo, hi) == ordered(*old(l), lo, hi),
        forall|h: int| infrared(*old(l), h) ==> rb(*final(l), h + 1),
        forall|h: int| rb(*old(l), h) && !red_root(*old(l)) ==> rb(*final(l), h),
        forall|h: int| rb(*old(l), h) && red_root(*old(l)) ==> rb(*final(l), h + 1),
        (*final(l) is Some) == (*old(l) is Some),
        *old(l) is Some ==> final(l).unwrap().left == old(l).unwrap().left
            && final(l).unwrap().right == old(l).unwrap().right
            && final(l).unwrap().key == old(l).unwrap().key
            && final(l).unwrap().value == old(l).unwrap().value
            && final(l).unwrap().color == Color::Black,
{
    match l {
        None => {},
        Some(n) => {
            n.color = Color::Black;
        },
    }
}

/// Repairs a black node with a red child that has a red child of its own:
/// the three nodes become a red node with two black children.
#[verifier::rlimit(50)]
fn balance<K: OrderedKey, V>(n: Box<Node<K, V>>, Ghost(lo): Ghost<Option<int>>, Ghost(hi): Ghost<Option<int>>, Ghost(h): Ghost<int>) -> (r: Box<Node<K, V>>)
    requires
        ordered(Some(n), lo, hi),
    ensures
        ordered(Some(r), lo, hi),
        inorder(Some(r)) == inorder(Some(n)),
        forall|j: K| lookup(Some(r), j) == lookup(Some(n), j),
        n.color == Color::Red ==> r == n,
        n.color == Color::Black && (
            ((rb(n.left, h - 1) || infrared(n.left, h - 1)) && rb(n.right, h - 1))
            || (rb(n.left, h - 1) && (rb(n.right, h - 1) || infrared(n.right, h - 1)))
        ) ==> rb(Some(r), h),
{
    if n.color == Color::Red {
        return n;
    }
    let left_red = is_red(&n.left);
    let right_red = is_red(&n.right);
    let ll_red = match &n.left {
        Some(x) => is_red(&x.left),
        None => false,
    };
    let lr_red = match &n.left {
        Some(x) => is_red(&x.right),
        None => false,
    };
    let rl_red = match &n.right {
        Some(x) => is_red(&x.left),
        None => false,
    };
    let rr_red = match &n.right {
        Some(x) => is_red(&x.right),
        None => false,
    };
    proof {
        reveal_with_fuel(rb, 3);
    }
    let mut top = if left_red && (ll_red || lr_red) {
        let mut n = n;
        if !ll_red {
            proof {
                reveal_with_fuel(ordered, 2);
            }
            let Node { key, value, color, left, right } = *n;
            let ghost k = key.rank();
            let ghost old_left = left;
            let l2 = rotate_left(left.unwrap(), Ghost(lo), Ghost(Some(k)));
            let ghost n0 = n;
            n = Box::new(Node { key, value, color, left: Some(l2), right });
            proof {
                reveal_with_fuel(inorder, 2);
                assert forall|j: K| lookup(Some(n), j) == lookup(Some(n0), j) by {
                    assert(lookup(Some(l2), j) == lookup(old_left, j));
                }
            }
        }
        rotate_right(n, Ghost(lo), Ghost(hi))
    } else if right_red && (rl_red || rr_red) {
        let mut n = n;
        if !rr_red {
            proof {
                reveal_with_fuel(ordered, 2);
            }
            let Node { key, value, color, left, right } = *n;
            let ghost k = key.rank();
            let ghost old_right = right;
            let r2 = rotate_right(right.unwrap(), Ghost(Some(k)), Ghost(hi));
            let ghost n0 = n;
            n = Box::new(Node { key, value, color, left, right: Some(r2) });
            proof {
                reveal_with_fuel(inorder, 2);
                assert forall|j: K| lookup(Some(n), j) == lookup(Some(n0), j) by {
                    assert(lookup(Some(r2), j) == lookup(old_right, j));
                }
            }
        }
        rotate_left(n, Ghost(lo), Ghost(hi))
    } else {
        return n;
    };
    proof {
        reveal_with_fuel(ordered, 2);
        reveal_with_fuel(inorder, 2);
        reveal_with_fuel(lookup, 2);
    }
    let ghost before = top;
    top.color = Color::Red;
    paint_black(&mut top.left);
    paint_black(&mut top.right);
    proof {
        reveal_with_fuel(rb, 3);
    }
    assert forall|j: K| lookup(Some(top), j) == lookup(Some(before), j) by {
        reveal_with_fuel(lookup, 1);
    }
    top
}

/// Inserts `v` under `k` into the subtree, rebalancing on the way up.
/// Returns the new subtree and the value that `k` had before.
#[verifier::rlimit(50)]
pub fn insert_in<K: OrderedKey, V>(l: Link<K, V>, k: K, v: V, Ghost(lo): Ghost<Option<int>>, Ghost(hi): Ghost<Option<int>>, Ghost(h): Ghost<int>) -> (r: (Box<Node<K, V>>, Option<V>))
    requires
        ordered(l, lo, hi),
        above(lo, k.rank()),
        below(k.rank(), hi),
    ensures
        rb(l, h) && !red_root(l) ==> rb(Some(r.0), h),
        rb(l, h) && red_root(l) ==> infrared(Some(r.0), h),
        ordered(Some(r.0), lo, hi),
        r.1 == lookup(l, k),
        forall|j: K| #[trigger] lookup(Some(r.0), j) == if j.rank() == k.rank() { Some(v) } else { lookup(l, j) },
        inorder(Some(r.0)).len() == inorder(l).len() + if lookup(l, k) is Some { 0int } else { 1int },
    decreases l,
{
    match l {
        None => {
            let r = Box::new(Node { key: k, value: v, color: Color::Red, left: None, right: None });
            proof {
                reveal_with_fuel(inorder, 2);
                reveal_with_fuel(ordered, 2);
                reveal_with_fuel(lookup, 2);
                reveal_with_fuel(rb, 2);
                assert forall|j: K| #[trigger] lookup(Some(r), j) == if j.rank() == k.rank() { Some(v) } else { lookup(l, j) } by {
                    reveal_with_fuel(lookup, 2);
                }
            }
            (r, None)
        },
        Some(b) => {
            let Node { key, value, color, left, right } = *b;
            let ghost kr = key.rank();
            let ghost ch = if color == Color::Black { h - 1 } else { h };
            match k.compare(&key) {
                std::cmp::Ordering::Less => {
                    let ghost old_left = left;
                    let (nl, prev) = insert_in(left, k, v, Ghost(lo), Ghost(Some(kr)), Ghost(ch));
                    let n = Box::new(Node { key, value, color, left: Some(nl), right });
                    let r = balance(n, Ghost(lo), Ghost(hi), Ghost(h));
                    assert forall|j: K| #[trigger] lookup(Some(r), j) == if j.rank() == k.rank() { Some(v) } else { lookup(l, j) } by {
                        assert(lookup(Some(nl), j) == if j.rank() == k.rank() { Some(v) } else { lookup(old_left, j) });
                    }
                    (r, prev)
                },
                std::cmp::Ordering::Greater => {
                    let ghost old_right = right;
                    let (nr, prev) = insert_in(right, k, v, Ghost(Some(kr)), Ghost(hi), Ghost(ch));
                    let n = Box::new(Node { key, value, color, left, right: Some(nr) });
                    let r = balance(n, Ghost(lo), Ghost(hi), Ghost(h));
                    assert forall|j: K| #[trigger] lookup(Some(r), j) == if j.rank() == k.rank() { Some(v) } else { lookup(l, j) } by {
                        assert(lookup(Some(nr), j) == if j.rank() == k.rank() { Some(v) } else { lookup(old_right, j) });
                    }
                    (r, prev)
                },
                std::cmp::Ordering::Equal => {
                    let n = Box::new(Node { key, value: v, color, left, right });
                    (n, Some(value))
                },
            }
        },
    }
}

/// A key that a search finds lies within the bounds of an ordered subtree.
pub proof fn lemma_lookup_bounds<K: OrderedKey, V>(l: Link<K, V>, lo: Option<int>, hi: Option<int>, j: K)
    requires
        ordered(l, lo, hi),
        lookup(l, j) is Some,
    ensures
        above(lo, j.rank()),
        below(j.rank(), hi),
    decreases l,
{
    match l {
        None => {},
        Some(n) => {
            if j.rank() < n.key.rank() {
                lemma_lookup_bounds(n.left, lo, Some(n.key.rank()), j);
            } else if j.rank() > n.key.rank() {
                lemma_lookup_bounds(n.right, Some(n.key.rank()), hi, j);
            }
        },
    }
}

/// The in-order entries of an ordered subtree: within the bounds, strictly
/// ascending, each found by a search, and every key a search finds among them.
#[verifier::rlimit(50)]
pub proof fn lemma_inorder<K: OrderedKey, V>(l: Link<K, V>, lo: Option<int>, hi: Option<int>)
    requires
        ordered(l, lo, hi),
    ensures
        forall|i: int| 0 <= i < inorder(l).len() ==> above(lo, #[trigger] inorder(l)[i].0.rank()) && below(inorder(l)[i].0.rank(), hi),
        forall|i: int, j: int| 0 <= i < j < inorder(l).len() ==> #[trigger] inorder(l)[i].0.rank() < #[trigger] inorder(l)[j].0.rank(),
        forall|i: int| 0 <= i < inorder(l).len() ==> lookup(l, #[trigger] inorder(l)[i].0) == Some(inorder(l)[i].1),
        forall|k: K| #[trigger] lookup(l, k) is Some ==> exists|i: int| 0 <= i < inorder(l).len() && #[trigger] inorder(l)[i].0 == k,
    decreases l,
{
    match l {
        None => {},
        Some(n) => {
            let kr = n.key.rank();
            lemma_inorder(n.left, lo, Some(kr));
            lemma_inorder(n.right, Some(kr), hi);
            let a = inorder(n.left);
            let b = inorder(n.right);
            let s = inorder(l);
            assert(s == a + seq![(n.key, n.value)] + b);
            assert forall|i: int| 0 <= i < s.len() implies above(lo, #[trigger] s[i].0.rank()) && below(s[i].0.rank(), hi) by {
                if i < a.len() {
                    assert(s[i] == a[i]);
                } else if i > a.len() {
                    assert(s[i] == b[i - a.len() - 1]);
                }
            }
            assert forall|i: int, j: int| 0 <= i < j < s.len() implies #[trigger] s[i].0.rank() < #[trigger] s[j].0.rank() by {
                if i < a.len() {
                    assert(s[i] == a[i]);
                } else if i > a.len() {
                    assert(s[i] == b[i - a.len() - 1]);
                }
                if j < a.len() {
                    assert(s[j] == a[j]);
                } else if j > a.len() {
                    assert(s[j] == b[j - a.len() - 1]);
                }
            }
            assert forall|i: int| 0 <= i < s.len() implies lookup(l, #[trigger] s[i].0) == Some(s[i].1) by {
                if i < a.len() {
                    assert(s[i] == a[i]);
                } else if i > a.len() {
                    assert(s[i] == b[i - a.len() - 1]);
                }
            }
            assert forall|k: K| #[trigger] lookup(l, k) is Some implies exists|i: int| 0 <= i < s.len() && #[trigger] s[i].0 == k by {
                if k.rank() < kr {
                    assert(lookup(n.left, k) is Some);
                    let i = choose|i: int| 0 <= i < a.len() && #[trigger] a[i].0 == k;
                    assert(s[i] == a[i]);
                    assert(0 <= i < s.len() && s[i].0 == k);
                } else if k.rank() > kr {
                    assert(lookup(n.right, k) is Some);
                    let i = choose|i: int| 0 <= i < b.len() && #[trigger] b[i].0 == k;
                    let i2 = i + a.len() + 1;
                    assert(s[i2] == b[i]);
                    assert(0 <= i2 < s.len() && s[i2].0 == k);
                } else {
                    K::rank_injective(k, n.key);
                    let i2 = a.len() as int;
                    assert(s[i2] == (n.key, n.value));
                    assert(0 <= i2 < s.len() && s[i2].0 == k);
                }
            }
        },
    }
}


/// The entry with the least key of a nonempty subtree.
pub fn first_in<'a, K, V>(n: &'a Box<Node<K, V>>) -> (r: (&'a K, &'a V))
    ensures
        inorder(Some(*n)).len() > 0,
        (*r.0, *r.1) == inorder(Some(*n))[0],
    decreases n,
{
    match &n.left {
        None => {
            proof {
                reveal_with_fuel(inorder, 2);
            }
            (&n.key, &n.value)
        },
        Some(l) => {
            let r = first_in(l);
            r
        },
    }
}

/// The entry with the greatest key of a nonempty subtree.
pub fn last_in<'a, K, V>(n: &'a Box<Node<K, V>>) -> (r: (&'a K, &'a V))
    ensures
        inorder(Some(*n)).len() > 0,
        (*r.0, *r.1) == inorder(Some(*n)).last(),
    decreases n,
{
    match &n.right {
        None => {
            proof {
                reveal_with_fuel(inorder, 2);
            }
            (&n.key, &n.value)
        },
        Some(x) => {
            let r = last_in(x);
            r
        },
    }
}

/// The entry of the subtree with the greatest key at or below `k`, and
/// whether that key is `k` itself.
#[verifier::rlimit(50)]
pub fn floor_in<'a, K: OrderedKey, V>(l: &'a Link<K, V>, k: &K, Ghost(lo): Ghost<Option<int>>, Ghost(hi): Ghost<Option<int>>) -> (r: (Option<(&'a K, &'a V)>, bool))
    requires
        ordered(*l, lo, hi),
    ensures
        r.1 ==> r.0 is Some && *r.0.unwrap().0 == *k && lookup(*l, *k) == Some(*r.0.unwrap().1),
        !r.1 ==> lookup(*l, *k) is None,
        (match r.0 {
            Some(e) => lookup(*l, *e.0) == Some(*e.1) && e.0.rank() <= k.rank()
                && forall|j: K| #[trigger] lookup(*l, j) is Some && j.rank() <= k.rank() ==> j.rank() <= e.0.rank(),
            None => forall|j: K| #[trigger] lookup(*l, j) is Some ==> j.rank() > k.rank(),
        }),
    decreases l,
{
    match l {
        None => (None, false),
        Some(n) => {
            let ghost kr = n.key.rank();
            match k.compare(&n.key) {
                std::cmp::Ordering::Less => {
                    let r = floor_in(&n.left, k, Ghost(lo), Ghost(Some(kr)));
                    proof {
                        assert forall|j: K| #[trigger] lookup(*l, j) is Some && j.rank() <= k.rank() implies lookup(n.left, j) is Some by {
                        }
                        assert forall|j: K| #[trigger] lookup(*l, j) is Some && r.0 is None implies j.rank() > k.rank() by {
                            if j.rank() <= k.rank() {
                                assert(lookup(n.left, j) is Some);
                            }
                        }
                    }
                    r
                },
                std::cmp::Ordering::Greater => {
                    let r = floor_in(&n.right, k, Ghost(Some(kr)), Ghost(hi));
                    match r.0 {
                        Some(e) => {
                            proof {
                                lemma_lookup_bounds(n.right, Some(kr), hi, *e.0);
                                assert forall|j: K| #[trigger] lookup(*l, j) is Some && j.rank() <= k.rank() implies j.rank() <= e.0.rank() by {
                                    if j.rank() > kr {
                                        assert(lookup(n.right, j) is Some);
                                    }
                                }
                            }
                            r
                        },
                        None => {
                            proof {
                                assert forall|j: K| #[trigger] lookup(*l, j) is Some && j.rank() <= k.rank() implies j.rank() <= kr by {
                                    if j.rank() > kr {
                                        assert(lookup(n.right, j) is Some);
                                    }
                                }
                            }
                            (Some((&n.key, &n.value)), false)
                        },
                    }
                },
                std::cmp::Ordering::Equal => {
                    proof {
                        K::rank_injective(*k, n.key);
                        assert forall|j: K| #[trigger] lookup(*l, j) is Some && j.rank() <= k.rank() implies j.rank() <= kr by {
                        }
                    }
                    (Some((&n.key, &n.value)), true)
                },
            }
        },
    }
}

/// A copy of the subtree with the same shape, keys and colors, and each value
/// cloned.
#[verifier::rlimit(50)]
pub fn clone_in<K: OrderedKey, V: Clone>(l: &Link<K, V>, Ghost(lo): Ghost<Option<int>>, Ghost(hi): Ghost<Option<int>>) -> (r: Link<K, V>)
    requires
        ordered(*l, lo, hi),
    ensures
        ordered(r, lo, hi),
        red_root(r) == red_root(*l),
        inorder(r).len() == inorder(*l).len(),
        forall|h: int| #[trigger] rb(r, h) == rb(*l, h),
        black_height(r) == black_height(*l),
        forall|j: K| (#[trigger] lookup(r, j) is Some) == (lookup(*l, j) is Some),
        forall|j: K| #[trigger] lookup(r, j) is Some ==> cloned(lookup(*l, j).unwrap(), lookup(r, j).unwrap()),
    decreases l,
{
    match l {
        None => None,
        Some(n) => {
            let ghost kr = n.key.rank();
            let left = clone_in(&n.left, Ghost(lo), Ghost(Some(kr)));
            let right = clone_in(&n.right, Ghost(Some(kr)), Ghost(hi));
            let key = n.key.duplicate();
            let value = n.value.clone();
            let r = Some(Box::new(Node { key, value, color: n.color, left, right }));
            proof {
                assert forall|h: int| #[trigger] rb(r, h) == rb(*l, h) by {
                    let ch = if n.color == Color::Black { h - 1 } else { h };
                    assert(rb(left, ch) == rb(n.left, ch));
                    assert(rb(right, ch) == rb(n.right, ch));
                }
                assert forall|j: K| (#[trigger] lookup(r, j) is Some) == (lookup(*l, j) is Some) && (lookup(r, j) is Some ==> cloned(lookup(*l, j).unwrap(), lookup(r, j).unwrap())) by {
                    if j.rank() < kr {
                        assert((lookup(left, j) is Some) == (lookup(n.left, j) is Some));
                    } else if j.rank() > kr {
                        assert((lookup(right, j) is Some) == (lookup(n.right, j) is Some));
                    }
                }
            }
            r
        },
    }
}

/// Appends references to the entries of the subtree, in order.
#[verifier::rlimit(50)]
pub fn collect_in<'a, K, V>(l: &'a Link<K, V>, out: &mut Vec<(&'a K, &'a V)>)
    ensures
        final(out)@.len() == old(out)@.len() + inorder(*l).len(),
        forall|i: int| 0 <= i < old(out)@.len() ==> #[trigger] final(out)@[i] == old(out)@[i],
        forall|i: int| 0 <= i < inorder(*l).len() ==> (*final(out)@[old(out)@.len() + i].0, *final(out)@[old(out)@.len() + i].1) == #[trigger] inorder(*l)[i],
    decreases l,
{
    match l {
        None => {},
        Some(n) => {
            let ghost start = out@;
            collect_in(&n.left, out);
            let ghost mid = out@;
            out.push((&n.key, &n.value));
            let ghost mid2 = out@;
            collect_in(&n.right, out);
            proof {
                let a = inorder(n.left);
                let b = inorder(n.right);
                assert(inorder(*l) == a + seq![(n.key, n.value)] + b);
                assert forall|i: int| 0 <= i < inorder(*l).len() implies (*out@[start.len() + i].0, *out@[start.len() + i].1) == #[trigger] inorder(*l)[i] by {
                    if i < a.len() {
                        assert(out@[start.len() + i] == mid[start.len() + i]);
                    } else if i == a.len() {
                        assert(out@[start.len() + i] == mid2[start.len() + i]);
                    } else {
                        assert(inorder(*l)[i] == b[i - a.len() - 1]);
                        assert(out@[start.len() + i] == out@[mid2.len() + (i - a.len() - 1)]);
                    }
                }
            }
        },
    }
}

/// Moves the entries of the subtree onto `out`, greatest key first.
#[verifier::rlimit(50)]
pub fn drain_in<K, V>(l: Link<K, V>, out: &mut Vec<(K, V)>)
    ensures
        final(out)@ == old(out)@ + inorder(l).reverse(),
    decreases l,
{
    match l {
        None => {
            assert(old(out)@ + inorder(l).reverse() =~= old(out)@);
        },
        Some(n) => {
            let ghost whole = inorder(l);
            let Node { key, value, color, left, right } = *n;
            let ghost a = inorder(left);
            let ghost b = inorder(right);
            let ghost start = out@;
            drain_in(right, out);
            out.push((key, value));
            drain_in(left, out);
            proof {
                assert(whole == a + seq![(key, value)] + b);
                assert(whole.reverse() =~= b.reverse() + seq![(key, value)] + a.reverse());
                assert(out@ =~= start + whole.reverse());
            }
        },
    }
}

/// The subtree with the value found by a search for `k` replaced by `v`.
pub open spec fn with_value<K: OrderedKey, V>(l: Link<K, V>, k: K, v: V) -> Link<K, V>
    decreases l,
{
    match l {
        None => None,
        Some(n) => {
            if k.rank() < n.key.rank() {
                Some(Box::new(Node { key: n.key, value: n.value, color: n.color, left: with_value(n.left, k, v), right: n.right }))
            } else if k.rank() > n.key.rank() {
                Some(Box::new(Node { key: n.key, value: n.value, color: n.color, left: n.left, right: with_value(n.right, k, v) }))
            } else {
                Some(Box::new(Node { key: n.key, value: v, color: n.color, left: n.left, right: n.right }))
            }
        },
    }
}

/// Replacing a value keeps the order, the colors and the number of entries,
/// and changes what a search finds only at `k`.
#[verifier::rlimit(50)]
pub proof fn lemma_with_value<K: OrderedKey, V>(l: Link<K, V>, k: K, v: V, lo: Option<int>, hi: Option<int>)
    requires
        ordered(l, lo, hi),
        lookup(l, k) is Some,
    ensures
        ordered(with_value(l, k, v), lo, hi),
        red_root(with_value(l, k, v)) == red_root(l),
        inorder(with_value(l, k, v)).len() == inorder(l).len(),
        forall|j: K| #[trigger] lookup(with_value(l, k, v), j) == if j.rank() == k.rank() { Some(v) } else { lookup(l, j) },
        forall|h: int| #[trigger] rb(with_value(l, k, v), h) == rb(l, h),
        black_height(with_value(l, k, v)) == black_height(l),
    decreases l,
{
    match l {
        None => {},
        Some(n) => {
            let w = with_value(l, k, v);
            if k.rank() < n.key.rank() {
                lemma_with_value(n.left, k, v, lo, Some(n.key.rank()));
                assert forall|h: int| #[trigger] rb(w, h) == rb(l, h) by {
                    let ch = if n.color == Color::Black { h - 1 } else { h };
                    assert(rb(with_value(n.left, k, v), ch) == rb(n.left, ch));
                }
                assert forall|j: K| #[trigger] lookup(w, j) == if j.rank() == k.rank() { Some(v) } else { lookup(l, j) } by {
                    if j.rank() < n.key.rank() {
                        assert(lookup(w, j) == lookup(with_value(n.left, k, v), j));
                    }
                }
            } else if k.rank() > n.key.rank() {
                lemma_with_value(n.right, k, v, Some(n.key.rank()), hi);
                assert forall|h: int| #[trigger] rb(w, h) == rb(l, h) by {
                    let ch = if n.color == Color::Black { h - 1 } else { h };
                    assert(rb(with_value(n.right, k, v), ch) == rb(n.right, ch));
                }
                assert forall|j: K| #[trigger] lookup(w, j) == if j.rank() == k.rank() { Some(v) } else { lookup(l, j) } by {
                    if j.rank() > n.key.rank() {
                        assert(lookup(w, j) == lookup(with_value(n.right, k, v), j));
                    }
                }
            } else {
                assert forall|j: K| #[trigger] lookup(w, j) == if j.rank() == k.rank() { Some(v) } else { lookup(l, j) } by {
                }
                assert forall|h: int| #[trigger] rb(w, h) == rb(l, h) by {
                }
            }
        },
    }
}

/// A mutable reference to the value found by a search for `k`.
pub fn get_mut_in<'a, K: OrderedKey, V>(l: &'a mut Link<K, V>, k: &K) -> (r: Option<&'a mut V>)
    ensures
        (match r {
            Some(v) => lookup(*old(l), *k) == Some(*v) && *final(l) == with_value(*old(l), *k, *final(v)),
            None => lookup(*old(l), *k) is None && *final(l) == *old(l),
        }),
    decreases *old(l),
{
    match l {
        None => None,
        Some(n) => {
            match k.compare(&n.key) {
                std::cmp::Ordering::Less => get_mut_in(&mut n.left, k),
                std::cmp::Ordering::Greater => get_mut_in(&mut n.right, k),
                std::cmp::Ordering::Equal => Some(&mut n.value),
            }
        },
    }
}

/// The entry with the least key of a nonempty subtree, with its value
/// open to change.
#[verifier::rlimit(50)]
pub fn first_mut_in<'a, K: OrderedKey, V>(n: &'a mut Box<Node<K, V>>, Ghost(lo): Ghost<Option<int>>, Ghost(hi): Ghost<Option<int>>) -> (r: (&'a K, &'a mut V))
    requires
        ordered(Some(*old(n)), lo, hi),
    ensures
        inorder(Some(*old(n))).len() > 0,
        (*r.0, *r.1) == inorder(Some(*old(n)))[0],
        lookup(Some(*old(n)), *r.0) == Some(*r.1),
        Some(*final(n)) == with_value(Some(*old(n)), *r.0, *final(r.1)),
    decreases *old(n),
{
    let ghost kr = n.key.rank();
    let ghost old_left = n.left;
    match &mut n.left {
        None => {
            proof {
                reveal_with_fuel(inorder, 2);
            }
            (&n.key, &mut n.value)
        },
        Some(l) => {
            let r = first_mut_in(l, Ghost(lo), Ghost(Some(kr)));
            proof {
                lemma_lookup_bounds(old_left, lo, Some(kr), *r.0);
            }
            r
        },
    }
}

/// The entry with the greatest key of a nonempty subtree, with its value
/// open to change.
#[verifier::rlimit(50)]
pub fn last_mut_in<'a, K: OrderedKey, V>(n: &'a mut Box<Node<K, V>>, Ghost(lo): Ghost<Option<int>>, Ghost(hi): Ghost<Option<int>>) -> (r: (&'a K, &'a mut V))
    requires
        ordered(Some(*old(n)), lo, hi),
    ensures
        inorder(Some(*old(n))).len() > 0,
        (*r.0, *r.1) == inorder(Some(*old(n))).last(),
        lookup(Some(*old(n)), *r.0) == Some(*r.1),
        Some(*final(n)) == with_value(Some(*old(n)), *r.0, *final(r.1)),
    decreases *old(n),
{
    let ghost kr = n.key.rank();
    let ghost old_right = n.right;
    match &mut n.right {
        None => {
            proof {
                reveal_with_fuel(inorder, 2);
            }
            (&n.key, &mut n.value)
        },
        Some(x) => {
            let r = last_mut_in(x, Ghost(Some(kr)), Ghost(hi));
            proof {
                lemma_lookup_bounds(old_right, Some(kr), hi, *r.0);
            }
            r
        },
    }
}

/// Appends the entries of the subtree, in order, each value open to change.
#[verifier::rlimit(50)]
pub fn collect_mut_in<'a, K, V>(l: &'a mut Link<K, V>, out: &mut Vec<(&'a K, &'a mut V)>)
    ensures
        final(out)@.len() == old(out)@.len() + inorder(*old(l)).len(),
        forall|i: int| 0 <= i < old(out)@.len() ==> #[trigger] final(out)@[i] == old(out)@[i],
        forall|i: int| 0 <= i < inorder(*old(l)).len() ==> (*final(out)@[old(out)@.len() + i].0, *final(out)@[old(out)@.len() + i].1) == #[trigger] inorder(*old(l))[i],
        inorder(*final(l)).len() == inorder(*old(l)).len(),
        red_root(*final(l)) == red_root(*old(l)),
        same_shape(*final(l), *old(l)),
        forall|i: int| 0 <= i < inorder(*old(l)).len() ==> #[trigger] inorder(*final(l))[i] == (*final(out)@[old(out)@.len() + i].0, *final(final(out)@[old(out)@.len() + i].1)),
    decreases *old(l),
{
    match l {
        None => {},
        Some(n) => {
            let ghost start = out@;
            let node: &mut Node<K, V> = &mut **n;
            collect_mut_in(&mut node.left, out);
            let ghost mid = out@;
            out.push((&node.key, &mut node.value));
            let ghost mid2 = out@;
            collect_mut_in(&mut node.right, out);
        },
    }
}

/// A subtree whose in-order keys ascend strictly within the bounds is ordered.
#[verifier::rlimit(50)]
pub proof fn lemma_ordered_from_inorder<K: OrderedKey, V>(l: Link<K, V>, lo: Option<int>, hi: Option<int>)
    requires
        forall|i: int| 0 <= i < inorder(l).len() ==> above(lo, #[trigger] inorder(l)[i].0.rank()) && below(inorder(l)[i].0.rank(), hi),
        forall|i: int, j: int| 0 <= i < j < inorder(l).len() ==> #[trigger] inorder(l)[i].0.rank() < #[trigger] inorder(l)[j].0.rank(),
    ensures
        ordered(l, lo, hi),
    decreases l,
{
    match l {
        None => {},
        Some(n) => {
            let a = inorder(n.left);
            let b = inorder(n.right);
            let s = inorder(l);
            let kr = n.key.rank();
            assert(s == a + seq![(n.key, n.value)] + b);
            assert(s[a.len() as int] == (n.key, n.value));
            assert forall|i: int| 0 <= i < a.len() implies above(lo, #[trigger] a[i].0.rank()) && below(a[i].0.rank(), Some(kr)) by {
                assert(s[i] == a[i]);
                assert(s[i].0.rank() < s[a.len() as int].0.rank());
            }
            assert forall|i: int, j: int| 0 <= i < j < a.len() implies #[trigger] a[i].0.rank() < #[trigger] a[j].0.rank() by {
                assert(s[i] == a[i]);
                assert(s[j] == a[j]);
            }
            assert forall|i: int| 0 <= i < b.len() implies above(Some(kr), #[trigger] b[i].0.rank()) && below(b[i].0.rank(), hi) by {
                assert(s[i + a.len() + 1] == b[i]);
                assert(s[a.len() as int].0.rank() < s[i + a.len() + 1].0.rank());
            }
            assert forall|i: int, j: int| 0 <= i < j < b.len() implies #[trigger] b[i].0.rank() < #[trigger] b[j].0.rank() by {
                assert(s[i + a.len() + 1] == b[i]);
                assert(s[j + a.len() + 1] == b[j]);
            }
            lemma_ordered_from_inorder(n.left, lo, Some(kr));
            lemma_ordered_from_inorder(n.right, Some(kr), hi);
        },
    }
}

/// Two subtrees with the same in-order entries, one of them ordered: the
/// other is ordered too, and searches find the same values in both.
#[verifier::rlimit(50)]
pub proof fn lemma_same_inorder<K: OrderedKey, V>(t1: Link<K, V>, t2: Link<K, V>, lo: Option<int>, hi: Option<int>)
    requires
        ordered(t2, lo, hi),
        inorder(t1) == inorder(t2),
    ensures
        ordered(t1, lo, hi),
        forall|j: K| #[trigger] lookup(t1, j) == lookup(t2, j),
{
    lemma_inorder(t2, lo, hi);
    lemma_ordered_from_inorder(t1, lo, hi);
    lemma_inorder(t1, lo, hi);
    assert forall|j: K| #[trigger] lookup(t1, j) == lookup(t2, j) by {
        if lookup(t1, j) is Some {
            let i = choose|i: int| 0 <= i < inorder(t1).len() && #[trigger] inorder(t1)[i].0 == j;
            assert(lookup(t2, inorder(t2)[i].0) == Some(inorder(t2)[i].1));
        } else if lookup(t2, j) is Some {
            let i = choose|i: int| 0 <= i < inorder(t2).len() && #[trigger] inorder(t2)[i].0 == j;
            assert(lookup(t1, inorder(t1)[i].0) == Some(inorder(t1)[i].1));
        }
    }
}

/// A subtree whose in-order entries are those of `a` followed by those of
/// `b`, where `kr` separates the two: ordered, and a search finds in `a`
/// below `kr` and in `b` above it.
#[verifier::rlimit(50)]
pub proof fn lemma_concat_lookup<K: OrderedKey, V>(r: Link<K, V>, a: Link<K, V>, b: Link<K, V>, lo: Option<int>, kr: int, hi: Option<int>)
    requires
        ordered(a, lo, Some(kr)),
        ordered(b, Some(kr), hi),
        above(lo, kr),
        below(kr, hi),
        inorder(r) == inorder(a) + inorder(b),
    ensures
        ordered(r, lo, hi),
        forall|j: K| #[trigger] lookup(r, j) == if j.rank() < kr { lookup(a, j) } else if j.rank() > kr { lookup(b, j) } else { None },
{
    lemma_inorder(a, lo, Some(kr));
    lemma_inorder(b, Some(kr), hi);
    let sa = inorder(a);
    let sb = inorder(b);
    let s = inorder(r);
    assert forall|i: int| 0 <= i < s.len() implies above(lo, #[trigger] s[i].0.rank()) && below(s[i].0.rank(), hi) by {
        if i < sa.len() {
            assert(s[i] == sa[i]);
        } else {
            assert(s[i] == sb[i - sa.len()]);
        }
    }
    assert forall|i: int, j: int| 0 <= i < j < s.len() implies #[trigger] s[i].0.rank() < #[trigger] s[j].0.rank() by {
        if i < sa.len() {
            assert(s[i] == sa[i]);
        } else {
            assert(s[i] == sb[i - sa.len()]);
        }
        if j < sa.len() {
            assert(s[j] == sa[j]);
        } else {
            assert(s[j] == sb[j - sa.len()]);
        }
    }
    lemma_ordered_from_inorder(r, lo, hi);
    lemma_inorder(r, lo, hi);
    assert forall|j: K| #[trigger] lookup(r, j) == if j.rank() < kr { lookup(a, j) } else if j.rank() > kr { lookup(b, j) } else { None } by {
        if lookup(r, j) is Some {
            let i = choose|i: int| 0 <= i < s.len() && #[trigger] s[i].0 == j;
            if i < sa.len() {
                assert(s[i] == sa[i]);
                assert(lookup(a, sa[i].0) == Some(sa[i].1));
            } else {
                assert(s[i] == sb[i - sa.len()]);
                assert(lookup(b, sb[i - sa.len()].0) == Some(sb[i - sa.len()].1));
            }
        } else {
            if j.rank() < kr && lookup(a, j) is Some {
                let i = choose|i: int| 0 <= i < sa.len() && #[trigger] sa[i].0 == j;
                assert(s[i] == sa[i]);
                assert(lookup(r, s[i].0) == Some(s[i].1));
            }
            if j.rank() > kr && lookup(b, j) is Some {
                let i = choose|i: int| 0 <= i < sb.len() && #[trigger] sb[i].0 == j;
                assert(s[i + sa.len()] == sb[i]);
                assert(lookup(r, s[i + sa.len()].0) == Some(s[i + sa.len()].1));
            }
        }
    }
}

/// The subtree keeps the red-black rules with black height `h`, except that
/// its root may be red with a red child.
pub open spec fn almost<K, V>(l: Link<K, V>, h: int) -> bool {
    rb(l, h) || infrared(l, h)
}

/// Joins `a`, the entry `(k, v)` and `b` under a new root, resolving a red
/// node with a red child on either side by turning three nodes into a red
/// node with two black children.
#[verifier::rlimit(50)]
fn rebalance<K: OrderedKey, V>(a: Link<K, V>, k: K, v: V, b: Link<K, V>, Ghost(h): Ghost<int>) -> (r: Box<Node<K, V>>)
    ensures
        inorder(Some(r)) == inorder(a) + seq![(k, v)] + inorder(b),
        (almost(a, h) && rb(b, h)) || (rb(a, h) && almost(b, h)) ==> rb(Some(r), h + 1),
{
    let a_red = is_red(&a);
    let b_red = is_red(&b);
    if a_red && b_red {
        let mut a = a;
        let mut b = b;
        paint_black(&mut a);
        paint_black(&mut b);
        let r = Box::new(Node { key: k, value: v, color: Color::Red, left: a, right: b });
        proof {
            reveal_with_fuel(rb, 2);
        }
        return r;
    }
    if a_red {
        return rebalance_left(a.unwrap(), k, v, b, Ghost(h));
    }
    if b_red {
        return rebalance_right(a, k, v, b.unwrap(), Ghost(h));
    }
    let r = Box::new(Node { key: k, value: v, color: Color::Black, left: a, right: b });
    proof {
        reveal_with_fuel(rb, 2);
    }
    r
}

/// `rebalance` where `a` is red and `b` is not.
#[verifier::rlimit(50)]
fn rebalance_left<K: OrderedKey, V>(an: Box<Node<K, V>>, k: K, v: V, b: Link<K, V>, Ghost(h): Ghost<int>) -> (r: Box<Node<K, V>>)
    requires
        an.color == Color::Red,
        !red_root(b),
    ensures
        inorder(Some(r)) == inorder(Some(an)) + seq![(k, v)] + inorder(b),
        (almost(Some(an), h) && rb(b, h)) || (rb(Some(an), h) && almost(b, h)) ==> rb(Some(r), h + 1),
{
    let ghost a = Some(an);
    let ghost pre = (almost(a, h) && rb(b, h)) || (rb(a, h) && almost(b, h));
    let Node { key: x, value: xv, color: _, left: a1, right: a2 } = *an;
    proof {
        if pre {
            assert(rb(a1, h) && rb(a2, h) && rb(b, h));
        }
    }
    if is_red(&a1) {
        let ghost a1_old = a1;
        let mut a1 = a1;
        paint_black(&mut a1);
        let right = Box::new(Node { key: k, value: v, color: Color::Black, left: a2, right: b });
        let r = Box::new(Node { key: x, value: xv, color: Color::Red, left: a1, right: Some(right) });
        proof {
            if pre {
                assert(rb(a1, h + 1));
                assert(rb(Some(right), h + 1));
            }
            assert(inorder(a) == inorder(a1_old) + seq![(x, xv)] + inorder(a2));
            assert(inorder(Some(right)) == inorder(a2) + seq![(k, v)] + inorder(b));
            assert(inorder(Some(r)) == inorder(a1) + seq![(x, xv)] + inorder(Some(right)));
            assert(inorder(Some(r)) =~= inorder(a) + seq![(k, v)] + inorder(b));
        }
        return r;
    }
    if is_red(&a2) {
        let m = a2.unwrap();
        let ghost mm = Some(m);
        let Node { key: y, value: yv, color: _, left: b1, right: c } = *m;
        proof {
            if pre {
                assert(rb(b1, h) && rb(c, h));
            }
        }
        let l = Box::new(Node { key: x, value: xv, color: Color::Black, left: a1, right: b1 });
        let rr = Box::new(Node { key: k, value: v, color: Color::Black, left: c, right: b });
        proof {
            if pre {
                assert(rb(Some(l), h + 1));
                assert(rb(Some(rr), h + 1));
            }
        }
        let r = Box::new(Node { key: y, value: yv, color: Color::Red, left: Some(l), right: Some(rr) });
        proof {
            assert(inorder(mm) == inorder(b1) + seq![(y, yv)] + inorder(c));
            assert(inorder(a) == inorder(a1) + seq![(x, xv)] + inorder(mm));
            assert(inorder(Some(l)) == inorder(a1) + seq![(x, xv)] + inorder(b1));
            assert(inorder(Some(rr)) == inorder(c) + seq![(k, v)] + inorder(b));
            assert(inorder(Some(r)) == inorder(Some(l)) + seq![(y, yv)] + inorder(Some(rr)));
            assert(inorder(Some(r)) =~= inorder(a) + seq![(k, v)] + inorder(b));
        }
        return r;
    }
    let a = Some(Box::new(Node { key: x, value: xv, color: Color::Red, left: a1, right: a2 }));
    proof {
        if pre {
            assert(rb(a, h));
        }
    }
    Box::new(Node { key: k, value: v, color: Color::Black, left: a, right: b })
}

/// `rebalance` where `b` is red and `a` is not.
#[verifier::rlimit(50)]
fn rebalance_right<K: OrderedKey, V>(a: Link<K, V>, k: K, v: V, bn: Box<Node<K, V>>, Ghost(h): Ghost<int>) -> (r: Box<Node<K, V>>)
    requires
        bn.color == Color::Red,
        !red_root(a),
    ensures
        inorder(Some(r)) == inorder(a) + seq![(k, v)] + inorder(Some(bn)),
        (almost(a, h) && rb(Some(bn), h)) || (rb(a, h) && almost(Some(bn), h)) ==> rb(Some(r), h + 1),
{
    let ghost b = Some(bn);
    let ghost pre = (almost(a, h) && rb(b, h)) || (rb(a, h) && almost(b, h));
    let Node { key: y, value: yv, color: _, left: b1, right: b2 } = *bn;
    proof {
        if pre {
            assert(rb(b1, h) && rb(b2, h) && rb(a, h));
        }
    }
    if is_red(&b2) {
        let ghost b2_old = b2;
        let mut b2 = b2;
        paint_black(&mut b2);
        let l = Box::new(Node { key: k, value: v, color: Color::Black, left: a, right: b1 });
        let r = Box::new(Node { key: y, value: yv, color: Color::Red, left: Some(l), right: b2 });
        proof {
            if pre {
                assert(rb(b2, h + 1));
                assert(rb(Some(l), h + 1));
            }
            assert(inorder(b) == inorder(b1) + seq![(y, yv)] + inorder(b2_old));
            assert(inorder(Some(l)) == inorder(a) + seq![(k, v)] + inorder(b1));
            assert(inorder(Some(r)) == inorder(Some(l)) + seq![(y, yv)] + inorder(b2));
            assert(inorder(Some(r)) =~= inorder(a) + seq![(k, v)] + inorder(b));
        }
        return r;
    }
    if is_red(&b1) {
        let m = b1.unwrap();
        let ghost mm = Some(m);
        let Node { key: z, value: zv, color: _, left: c1, right: c2 } = *m;
        proof {
            if pre {
                assert(rb(c1, h) && rb(c2, h));
            }
        }
        let l = Box::new(Node { key: k, value: v, color: Color::Black, left: a, right: c1 });
        let rr = Box::new(Node { key: y, value: yv, color: Color::Black, left: c2, right: b2 });
        proof {
            if pre {
                assert(rb(Some(l), h + 1));
                assert(rb(Some(rr), h + 1));
            }
        }
        let r = Box::new(Node { key: z, value: zv, color: Color::Red, left: Some(l), right: Some(rr) });
        proof {
            assert(inorder(mm) == inorder(c1) + seq![(z, zv)] + inorder(c2));
            assert(inorder(b) == inorder(mm) + seq![(y, yv)] + inorder(b2));
            assert(inorder(Some(l)) == inorder(a) + seq![(k, v)] + inorder(c1));
            assert(inorder(Some(rr)) == inorder(c2) + seq![(y, yv)] + inorder(b2));
            assert(inorder(Some(r)) == inorder(Some(l)) + seq![(z, zv)] + inorder(Some(rr)));
            assert(inorder(Some(r)) =~= inorder(a) + seq![(k, v)] + inorder(b));
        }
        return r;
    }
    let b = Some(Box::new(Node { key: y, value: yv, color: Color::Red, left: b1, right: b2 }));
    proof {
        if pre {
            assert(rb(b, h));
        }
    }
    Box::new(Node { key: k, value: v, color: Color::Black, left: a, right: b })
}

/// Black heights are never negative.
pub proof fn lemma_rb_nonneg<K, V>(l: Link<K, V>, h: int)
    requires
        rb(l, h),
    ensures
        h >= 0,
    decreases l,
{
    match l {
        None => {},
        Some(n) => {
            let ch = if n.color == Color::Black { h - 1 } else { h };
            lemma_rb_nonneg(n.left, ch);
        },
    }
}

/// The same node colored red.
fn redden<K, V>(n: Box<Node<K, V>>) -> (r: Box<Node<K, V>>)
    ensures
        r.color == Color::Red,
        r.key == n.key,
        r.value == n.value,
        r.left == n.left,
        r.right == n.right,
        inorder(Some(r)) == inorder(Some(n)),
{
    let Node { key, value, color: _, left, right } = *n;
    Box::new(Node { key, value, color: Color::Red, left, right })
}

/// Joins `bl`, the entry `(k, v)` and `r` where `bl` has lost one black
/// level against `r`, restoring equal black heights.
#[verifier::rlimit(60)]
fn repair_left<K: OrderedKey, V>(bl: Link<K, V>, k: K, v: V, r: Link<K, V>, Ghost(h): Ghost<int>) -> (res: Box<Node<K, V>>)
    ensures
        inorder(Some(res)) == inorder(bl) + seq![(k, v)] + inorder(r),
        almost(bl, h) && rb(r, h + 1) ==> almost(Some(res), h + 1),
        almost(bl, h) && rb(r, h + 1) && !red_root(r) ==> rb(Some(res), h + 1),
{
    let ghost pre = almost(bl, h) && rb(r, h + 1);
    proof {
        if pre {
            if rb(bl, h) {
                lemma_rb_nonneg(bl, h);
            } else {
                lemma_rb_nonneg(bl.unwrap().left, h);
            }
        }
    }
    if is_red(&bl) {
        let mut bl = bl;
        paint_black(&mut bl);
        let res = Box::new(Node { key: k, value: v, color: Color::Red, left: bl, right: r });
        proof {
            if pre {
                assert(rb(bl, h + 1));
                assert(almost(Some(res), h + 1));
            }
        }
        return res;
    }
    let ghost r_old = r;
    match r {
        None => {
            proof {
                if pre {
                    assert(h + 1 == 0);
                    assert(h >= 0);
                    assert(false);
                }
            }
            Box::new(Node { key: k, value: v, color: Color::Black, left: bl, right: None })
        },
        Some(rn) => {
            if rn.color == Color::Black {
                let sub = redden(rn);
                proof {
                    if pre {
                        assert(almost(Some(sub), h));
                        assert(rb(bl, h));
                    }
                }
                return rebalance(bl, k, v, Some(sub), Ghost(h));
            }
            let shaped = match &rn.left {
                Some(x) => x.color == Color::Black && rn.right.is_some(),
                None => false,
            };
            if !shaped {
                proof {
                    if pre {
                        assert(rb(rn.left, h + 1) && rb(rn.right, h + 1));
                        assert(false);
                    }
                }
                return Box::new(Node { key: k, value: v, color: Color::Black, left: bl, right: Some(rn) });
            }
            let Node { key: z, value: zv, color: _, left: rl, right: c } = *rn;
            let rln = rl.unwrap();
            let ghost rl_old = Some(rln);
            let ghost c_old = c;
            proof {
                if pre {
                    assert(rb(rl_old, h + 1) && rb(c_old, h + 1));
                    assert(!red_root(c_old));
                }
            }
            let Node { key: y, value: yv, color: _, left: a, right: b } = *rln;
            let cs = redden(c.unwrap());
            let ghost cs_g = Some(cs);
            proof {
                if pre {
                    assert(rb(c_old.unwrap().left, h) && rb(c_old.unwrap().right, h));
                    assert(rb(a, h) && rb(b, h));
                    assert(almost(cs_g, h));
                    assert(rb(bl, h));
                }
            }
            let right = rebalance(b, z, zv, Some(cs), Ghost(h));
            let left = Box::new(Node { key: k, value: v, color: Color::Black, left: bl, right: a });
            let res = Box::new(Node { key: y, value: yv, color: Color::Red, left: Some(left), right: Some(right) });
            proof {
                if pre {
                    assert(rb(Some(left), h + 1));
                    assert(rb(Some(right), h + 1));
                }
                assert(inorder(rl_old) == inorder(a) + seq![(y, yv)] + inorder(b));
                assert(inorder(r_old) == inorder(rl_old) + seq![(z, zv)] + inorder(cs_g));
                assert(inorder(Some(left)) == inorder(bl) + seq![(k, v)] + inorder(a));
                assert(inorder(Some(res)) == inorder(Some(left)) + seq![(y, yv)] + inorder(Some(right)));
                assert(inorder(Some(res)) =~= inorder(bl) + seq![(k, v)] + inorder(r_old));
            }
            res
        },
    }
}

/// Joins `a`, the entry `(k, v)` and `br` where `br` has lost one black
/// level against `a`, restoring equal black heights.
#[verifier::rlimit(60)]
fn repair_right<K: OrderedKey, V>(a: Link<K, V>, k: K, v: V, br: Link<K, V>, Ghost(h): Ghost<int>) -> (res: Box<Node<K, V>>)
    ensures
        inorder(Some(res)) == inorder(a) + seq![(k, v)] + inorder(br),
        rb(a, h + 1) && almost(br, h) ==> almost(Some(res), h + 1),
        rb(a, h + 1) && almost(br, h) && !red_root(a) ==> rb(Some(res), h + 1),
{
    let ghost pre = rb(a, h + 1) && almost(br, h);
    proof {
        if pre {
            if rb(br, h) {
                lemma_rb_nonneg(br, h);
            } else {
                lemma_rb_nonneg(br.unwrap().left, h);
            }
        }
    }
    if is_red(&br) {
        let mut br = br;
        paint_black(&mut br);
        let res = Box::new(Node { key: k, value: v, color: Color::Red, left: a, right: br });
        proof {
            if pre {
                assert(rb(br, h + 1));
                assert(almost(Some(res), h + 1));
            }
        }
        return res;
    }
    let ghost a_old = a;
    match a {
        None => {
            proof {
                if pre {
                    assert(h + 1 == 0);
                    assert(h >= 0);
                    assert(false);
                }
            }
            Box::new(Node { key: k, value: v, color: Color::Black, left: None, right: br })
        },
        Some(an) => {
            if an.color == Color::Black {
                let sub = redden(an);
                proof {
                    if pre {
                        assert(almost(Some(sub), h));
                        assert(rb(br, h));
                    }
                }
                return rebalance(Some(sub), k, v, br, Ghost(h));
            }
            let shaped = match &an.right {
                Some(x) => x.color == Color::Black && an.left.is_some(),
                None => false,
            };
            if !shaped {
                proof {
                    if pre {
                        assert(rb(an.left, h + 1) && rb(an.right, h + 1));
                        assert(false);
                    }
                }
                return Box::new(Node { key: k, value: v, color: Color::Black, left: Some(an), right: br });
            }
            let Node { key: x, value: xv, color: _, left: c, right: ar } = *an;
            let arn = ar.unwrap();
            let ghost ar_old = Some(arn);
            let ghost c_old = c;
            proof {
                if pre {
                    assert(rb(ar_old, h + 1) && rb(c_old, h + 1));
                    assert(!red_root(c_old));
                }
            }
            let Node { key: y, value: yv, color: _, left: b, right: d } = *arn;
            let cs = redden(c.unwrap());
            let ghost cs_g = Some(cs);
            proof {
                if pre {
                    assert(rb(c_old.unwrap().left, h) && rb(c_old.unwrap().right, h));
                    assert(rb(b, h) && rb(d, h));
                    assert(almost(cs_g, h));
                    assert(rb(br, h));
                }
            }
            let left = rebalance(Some(cs), x, xv, b, Ghost(h));
            let right = Box::new(Node { key: k, value: v, color: Color::Black, left: d, right: br });
            let res = Box::new(Node { key: y, value: yv, color: Color::Red, left: Some(left), right: Some(right) });
            proof {
                if pre {
                    assert(rb(Some(left), h + 1));
                    assert(rb(Some(right), h + 1));
                }
                assert(inorder(ar_old) == inorder(b) + seq![(y, yv)] + inorder(d));
                assert(inorder(a_old) == inorder(cs_g) + seq![(x, xv)] + inorder(ar_old));
                assert(inorder(Some(right)) == inorder(d) + seq![(k, v)] + inorder(br));
                assert(inorder(Some(res)) == inorder(Some(left)) + seq![(y, yv)] + inorder(Some(right)));
                assert(inorder(Some(res)) =~= inorder(a_old) + seq![(k, v)] + inorder(br));
            }
            res
        },
    }
}

/// Joins two subtrees whose keys are all in order, `a` before `b`, without
/// a separating entry.
#[verifier::rlimit(100)]
fn fuse<K: OrderedKey, V>(a: Link<K, V>, b: Link<K, V>, Ghost(h): Ghost<int>) -> (r: Link<K, V>)
    ensures
        inorder(r) == inorder(a) + inorder(b),
        rb(a, h) && rb(b, h) ==> almost(r, h),
        rb(a, h) && rb(b, h) && !red_root(a) && !red_root(b) ==> rb(r, h),
    decreases inorder(a).len() + inorder(b).len(),
{
    if a.is_none() {
        assert(inorder(a) + inorder(b) =~= inorder(b));
        return b;
    }
    if b.is_none() {
        assert(inorder(a) + inorder(b) =~= inorder(a));
        return a;
    }
    let an = a.unwrap();
    let bn = b.unwrap();
    let ghost pre = rb(a, h) && rb(b, h);
    if an.color == Color::Red && bn.color == Color::Red {
        let Node { key: x, value: xv, color: _, left: a1, right: a2 } = *an;
        let Node { key: y, value: yv, color: _, left: b1, right: b2 } = *bn;
        proof {
            assert(inorder(a) == inorder(a1) + seq![(x, xv)] + inorder(a2));
            assert(inorder(b) == inorder(b1) + seq![(y, yv)] + inorder(b2));
        }
        let bc = fuse(a2, b1, Ghost(h));
        if is_red(&bc) {
            let m = bc.unwrap();
            let ghost mg = Some(m);
            let Node { key: z, value: zv, color: _, left: m1, right: m2 } = *m;
            let l = Box::new(Node { key: x, value: xv, color: Color::Red, left: a1, right: m1 });
            let rr = Box::new(Node { key: y, value: yv, color: Color::Red, left: m2, right: b2 });
            let r = Some(Box::new(Node { key: z, value: zv, color: Color::Red, left: Some(l), right: Some(rr) }));
            proof {
                if pre {
                    assert(rb(mg, h));
                    assert(rb(Some(l), h) && rb(Some(rr), h));
                }
                assert(inorder(mg) == inorder(m1) + seq![(z, zv)] + inorder(m2));
                assert(inorder(mg) == inorder(a2) + inorder(b1));
                assert(inorder(Some(l)) == inorder(a1) + seq![(x, xv)] + inorder(m1));
                assert(inorder(Some(rr)) == inorder(m2) + seq![(y, yv)] + inorder(b2));
                assert(inorder(r) == inorder(Some(l)) + seq![(z, zv)] + inorder(Some(rr)));
                lemma_regroup_split(inorder(a1), (x, xv), inorder(a2), inorder(b1), inorder(m1), (z, zv), inorder(m2), (y, yv), inorder(b2));
            }
            return r;
        }
        let rr = Box::new(Node { key: y, value: yv, color: Color::Red, left: bc, right: b2 });
        let r = Some(Box::new(Node { key: x, value: xv, color: Color::Red, left: a1, right: Some(rr) }));
        proof {
            if pre {
                assert(rb(Some(rr), h));
            }
            assert(inorder(Some(rr)) == inorder(bc) + seq![(y, yv)] + inorder(b2));
            assert(inorder(r) == inorder(a1) + seq![(x, xv)] + inorder(Some(rr)));
            lemma_regroup(inorder(a1), (x, xv), inorder(a2), inorder(b1), inorder(bc), (y, yv), inorder(b2));
        }
        return r;
    }
    if an.color == Color::Black && bn.color == Color::Black {
        let Node { key: x, value: xv, color: _, left: a1, right: a2 } = *an;
        let Node { key: y, value: yv, color: _, left: b1, right: b2 } = *bn;
        proof {
            assert(inorder(a) == inorder(a1) + seq![(x, xv)] + inorder(a2));
            assert(inorder(b) == inorder(b1) + seq![(y, yv)] + inorder(b2));
        }
        let bc = fuse(a2, b1, Ghost(h - 1));
        if is_red(&bc) {
            let m = bc.unwrap();
            let ghost mg = Some(m);
            let Node { key: z, value: zv, color: _, left: m1, right: m2 } = *m;
            let l = Box::new(Node { key: x, value: xv, color: Color::Black, left: a1, right: m1 });
            let rr = Box::new(Node { key: y, value: yv, color: Color::Black, left: m2, right: b2 });
            let r = Some(Box::new(Node { key: z, value: zv, color: Color::Red, left: Some(l), right: Some(rr) }));
            proof {
                if pre {
                    assert(rb(m1, h - 1) && rb(m2, h - 1));
                    assert(rb(Some(l), h) && rb(Some(rr), h));
                }
                assert(inorder(mg) == inorder(m1) + seq![(z, zv)] + inorder(m2));
                assert(inorder(mg) == inorder(a2) + inorder(b1));
                assert(inorder(Some(l)) == inorder(a1) + seq![(x, xv)] + inorder(m1));
                assert(inorder(Some(rr)) == inorder(m2) + seq![(y, yv)] + inorder(b2));
                assert(inorder(r) == inorder(Some(l)) + seq![(z, zv)] + inorder(Some(rr)));
                lemma_regroup_split(inorder(a1), (x, xv), inorder(a2), inorder(b1), inorder(m1), (z, zv), inorder(m2), (y, yv), inorder(b2));
            }
            return r;
        }
        let rr = Box::new(Node { key: y, value: yv, color: Color::Black, left: bc, right: b2 });
        proof {
            if pre {
                assert(rb(Some(rr), h));
            }
            assert(inorder(Some(rr)) == inorder(bc) + seq![(y, yv)] + inorder(b2));
        }
        let r = repair_left(a1, x, xv, Some(rr), Ghost(h - 1));
        proof {
            assert(inorder(Some(r)) =~= inorder(a) + inorder(b));
        }
        return Some(r);
    }
    if bn.color == Color::Red {
        let Node { key: y, value: yv, color: _, left: b1, right: b2 } = *bn;
        proof {
            assert(inorder(b) == inorder(b1) + seq![(y, yv)] + inorder(b2));
        }
        let l = fuse(Some(an), b1, Ghost(h));
        let r = Some(Box::new(Node { key: y, value: yv, color: Color::Red, left: l, right: b2 }));
        proof {
            assert(inorder(r) =~= inorder(a) + inorder(b));
        }
        return r;
    }
    let Node { key: x, value: xv, color: _, left: a1, right: a2 } = *an;
    proof {
        assert(inorder(a) == inorder(a1) + seq![(x, xv)] + inorder(a2));
    }
    let rr = fuse(a2, Some(bn), Ghost(h));
    let r = Some(Box::new(Node { key: x, value: xv, color: Color::Red, left: a1, right: rr }));
    proof {
        assert(inorder(r) =~= inorder(a) + inorder(b));
    }
    r
}

/// Regrouping after the middle of `a2 + b1` was lifted out as `z`.
proof fn lemma_regroup_split<T>(a1: Seq<T>, x: T, a2: Seq<T>, b1: Seq<T>, m1: Seq<T>, z: T, m2: Seq<T>, y: T, b2: Seq<T>)
    requires
        a2 + b1 == m1 + seq![z] + m2,
    ensures
        (a1 + seq![x] + m1) + seq![z] + (m2 + seq![y] + b2) == (a1 + seq![x] + a2) + (b1 + seq![y] + b2),
{
    assert((a1 + seq![x] + a2) + (b1 + seq![y] + b2) =~= a1 + seq![x] + (a2 + b1) + seq![y] + b2);
    assert((a1 + seq![x] + m1) + seq![z] + (m2 + seq![y] + b2) =~= a1 + seq![x] + (m1 + seq![z] + m2) + seq![y] + b2);
}

/// Regrouping after `a2 + b1` was joined into `bc`.
proof fn lemma_regroup<T>(a1: Seq<T>, x: T, a2: Seq<T>, b1: Seq<T>, bc: Seq<T>, y: T, b2: Seq<T>)
    requires
        bc == a2 + b1,
    ensures
        a1 + seq![x] + (bc + seq![y] + b2) == (a1 + seq![x] + a2) + (b1 + seq![y] + b2),
{
    assert(a1 + seq![x] + (bc + seq![y] + b2) =~= (a1 + seq![x] + a2) + (b1 + seq![y] + b2));
}

/// Removes `k` from the subtree, keeping the red-black rules: a black-rooted
/// subtree comes back one black level lower, any other at the same level.
/// Returns the new subtree and the value that `k` had.
#[verifier::rlimit(100)]
pub fn delete_in<K: OrderedKey, V>(l: Link<K, V>, k: &K, Ghost(lo): Ghost<Option<int>>, Ghost(hi): Ghost<Option<int>>, Ghost(h): Ghost<int>) -> (r: (Link<K, V>, Option<V>))
    requires
        ordered(l, lo, hi),
    ensures
        ordered(r.0, lo, hi),
        r.1 == lookup(l, *k),
        forall|j: K| #[trigger] lookup(r.0, j) == if j.rank() == k.rank() { None } else { lookup(l, j) },
        inorder(r.0).len() == inorder(l).len() - if lookup(l, *k) is Some { 1int } else { 0int },
        rb(l, h) && l is Some && l.unwrap().color == Color::Black ==> almost(r.0, h - 1),
        rb(l, h) && (l is None || l.unwrap().color == Color::Red) ==> rb(r.0, h),
    decreases l,
{
    match l {
        None => (None, None),
        Some(b) => {
            let Node { key, value, color, left, right } = *b;
            let ghost kr = key.rank();
            let ghost ch = if color == Color::Black { h - 1 } else { h };
            let ghost pre = rb(l, h);
            match k.compare(&key) {
                std::cmp::Ordering::Less => {
                    let left_black = match &left {
                        Some(x) => x.color == Color::Black,
                        None => false,
                    };
                    let ghost old_left = left;
                    let (nl, prev) = delete_in(left, k, Ghost(lo), Ghost(Some(kr)), Ghost(ch));
                    let ghost t2 = Some(Box::new(Node { key, value, color, left: nl, right }));
                    let n = if left_black {
                        repair_left(nl, key, value, right, Ghost(ch - 1))
                    } else {
                        Box::new(Node { key, value, color: Color::Red, left: nl, right })
                    };
                    proof {
                        if pre {
                            if !left_black && color == Color::Red {
                                assert(old_left is None);
                                assert(ch == 0);
                                assert(rb(t2.unwrap().right, ch) && !red_root(t2.unwrap().right));
                                if right is Some {
                                    lemma_rb_nonneg(right.unwrap().left, ch - 1);
                                }
                            }
                        }
                        lemma_rebuilt(l, Some(n), nl, right, *k, lo, hi);
                    }
                    (Some(n), prev)
                },
                std::cmp::Ordering::Greater => {
                    let right_black = match &right {
                        Some(x) => x.color == Color::Black,
                        None => false,
                    };
                    let ghost old_right = right;
                    let (nr, prev) = delete_in(right, k, Ghost(Some(kr)), Ghost(hi), Ghost(ch));
                    let ghost t2 = Some(Box::new(Node { key, value, color, left, right: nr }));
                    let n = if right_black {
                        repair_right(left, key, value, nr, Ghost(ch - 1))
                    } else {
                        Box::new(Node { key, value, color: Color::Red, left, right: nr })
                    };
                    proof {
                        if pre {
                            if !right_black && color == Color::Red {
                                assert(old_right is None);
                                assert(ch == 0);
                                assert(rb(t2.unwrap().left, ch) && !red_root(t2.unwrap().left));
                                if left is Some {
                                    lemma_rb_nonneg(left.unwrap().left, ch - 1);
                                }
                            }
                        }
                        lemma_rebuilt(l, Some(n), left, nr, *k, lo, hi);
                    }
                    (Some(n), prev)
                },
                std::cmp::Ordering::Equal => {
                    let ghost gl = left;
                    let ghost gr = right;
                    let r = fuse(left, right, Ghost(ch));
                    proof {
                        lemma_concat_lookup(r, gl, gr, lo, kr, hi);
                        assert forall|j: K| #[trigger] lookup(r, j) == if j.rank() == k.rank() { None } else { lookup(l, j) } by {
                        }
                    }
                    (r, Some(value))
                },
            }
        },
    }
}

/// Two subtrees with the same nodes, keys and colors, whatever their values.
pub open spec fn same_shape<K, V>(a: Link<K, V>, b: Link<K, V>) -> bool
    decreases a,
{
    match (a, b) {
        (None, None) => true,
        (Some(x), Some(y)) => {
            &&& x.key == y.key
            &&& x.color == y.color
            &&& same_shape(x.left, y.left)
            &&& same_shape(x.right, y.right)
        },
        _ => false,
    }
}

/// Subtrees of the same shape agree on the red-black rules and on their
/// leftmost black count.
pub proof fn lemma_same_shape<K, V>(a: Link<K, V>, b: Link<K, V>)
    requires
        same_shape(a, b),
    ensures
        forall|h: int| #[trigger] rb(a, h) == rb(b, h),
        black_height(a) == black_height(b),
        red_root(a) == red_root(b),
    decreases a,
{
    match (a, b) {
        (Some(x), Some(y)) => {
            lemma_same_shape(x.left, y.left);
            lemma_same_shape(x.right, y.right);
            assert forall|h: int| #[trigger] rb(a, h) == rb(b, h) by {
                let ch = if x.color == Color::Black { h - 1 } else { h };
                assert(rb(x.left, ch) == rb(y.left, ch));
                assert(rb(x.right, ch) == rb(y.right, ch));
            }
        },
        _ => {},
    }
}

/// A node rebuilt over one of its subtrees with `k` removed, into any shape
/// with the same in-order entries: ordered, and a search finds what it found
/// before except at `k`.
#[verifier::rlimit(50)]
proof fn lemma_rebuilt<K: OrderedKey, V>(l: Link<K, V>, n: Link<K, V>, nl: Link<K, V>, nr: Link<K, V>, k: K, lo: Option<int>, hi: Option<int>)
    requires
        l is Some,
        ordered(l, lo, hi),
        ordered(nl, lo, Some(l.unwrap().key.rank())),
        ordered(nr, Some(l.unwrap().key.rank()), hi),
        k.rank() != l.unwrap().key.rank(),
        k.rank() < l.unwrap().key.rank() ==> nr == l.unwrap().right,
        k.rank() > l.unwrap().key.rank() ==> nl == l.unwrap().left,
        k.rank() < l.unwrap().key.rank() ==> forall|j: K| #[trigger] lookup(nl, j) == if j.rank() == k.rank() { None } else { lookup(l.unwrap().left, j) },
        k.rank() > l.unwrap().key.rank() ==> forall|j: K| #[trigger] lookup(nr, j) == if j.rank() == k.rank() { None } else { lookup(l.unwrap().right, j) },
        inorder(n) == inorder(nl) + seq![(l.unwrap().key, l.unwrap().value)] + inorder(nr),
    ensures
        ordered(n, lo, hi),
        forall|j: K| #[trigger] lookup(n, j) == if j.rank() == k.rank() { None } else { lookup(l, j) },
{
    let x = l.unwrap();
    let t2 = Some(Box::new(Node { key: x.key, value: x.value, color: x.color, left: nl, right: nr }));
    lemma_same_inorder(n, t2, lo, hi);
    assert forall|j: K| #[trigger] lookup(n, j) == if j.rank() == k.rank() { None } else { lookup(l, j) } by {
        assert(lookup(n, j) == lookup(t2, j));
        if j.rank() < x.key.rank() && k.rank() < x.key.rank() {
            assert(lookup(nl, j) == if j.rank() == k.rank() { None } else { lookup(x.left, j) });
        }
        if j.rank() > x.key.rank() && k.rank() > x.key.rank() {
            assert(lookup(nr, j) == if j.rank() == k.rank() { None } else { lookup(x.right, j) });
        }
    }
}

} // verus!

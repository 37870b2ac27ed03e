use vstd::prelude::*;

verus! {

/// Number of compressed-path bytes that an inner node stores in place.
pub const MAX_PREFIX_LEN: usize = 10;

/// Marker in a 48-way node's byte table for a byte without a child.
pub const N48_ABSENT: u8 = 48;

/// Header shared by every inner node.
pub struct Info {
    /// Number of children.
    pub count: usize,
    /// The first `min(partial_len, MAX_PREFIX_LEN)` bytes of the compressed path.
    pub partial: Vec<u8>,
    /// Logical length of the compressed path; it may exceed `MAX_PREFIX_LEN`.
    pub partial_len: usize,
    /// The whole compressed path.
    pub prefix: Ghost<Seq<u8>>,
}

/// A stored key with its value.
pub struct LeafNode<T> {
    pub key: Vec<u8>,
    pub value: T,
}

/// Up to 4 children; `key` and `children` are parallel and sorted by key byte.
pub struct Node4<T> {
    pub info: Info,
    pub key: Vec<u8>,
    pub children: Vec<Node<T>>,
}

/// Up to 16 children; `key` and `children` are parallel and sorted by key byte.
pub struct Node16<T> {
    pub info: Info,
    pub key: Vec<u8>,
    pub children: Vec<Node<T>>,
}

/// Up to 48 children; `key[b]` is the slot of the child for byte `b`, or `N48_ABSENT`.
pub struct Node48<T> {
    pub info: Info,
    pub key: Vec<u8>,
    pub children: Vec<Option<Node<T>>>,
}

/// Up to 256 children, indexed directly by byte.
pub struct Node256<T> {
    pub info: Info,
    pub children: Vec<Option<Node<T>>>,
}

pub enum Node<T> {
    Leaf(LeafNode<T>),
    N4(Box<Node4<T>>),
    N16(Box<Node16<T>>),
    N48(Box<Node48<T>>),
    N256(Box<Node256<T>>),
}

impl<T> LeafNode<T> {
    pub fn new(value: T, key: &[u8]) -> (r: Self)
        ensures
            r.key@ == key@,
            r.value == value,
    {
        LeafNode { key: vstd::slice::slice_to_vec(key), value }
    }
}

/// The child paired with byte `b` in parallel sorted arrays.
pub open spec fn sorted_child<T>(keys: Seq<u8>, children: Seq<Node<T>>, b: u8) -> Option<Node<T>> {
    if exists|i: int| 0 <= i < keys.len() && i < children.len() && keys[i] == b {
        Some(children[choose|i: int| 0 <= i < keys.len() && i < children.len() && keys[i] == b])
    } else {
        None
    }
}

/// Two headers that differ at most in the number of children.
pub open spec fn same_path(a: Info, b: Info) -> bool {
    &&& a.partial@ == b.partial@
    &&& a.partial_len == b.partial_len
    &&& a.prefix@ == b.prefix@
}

/// Number of compressed-path bytes that a header with logical length `plen` stores.
pub open spec fn stored_len(plen: nat) -> nat {
    if plen < MAX_PREFIX_LEN {
        plen
    } else {
        MAX_PREFIX_LEN as nat
    }
}

pub open spec fn info_wf(info: Info) -> bool {
    &&& info.prefix@.len() == info.partial_len
    &&& info.partial@.len() == stored_len(info.partial_len as nat)
    &&& info.partial@ == info.prefix@.take(info.partial@.len() as int)
}

pub open spec fn strictly_sorted(s: Seq<u8>) -> bool {
    forall|i: int, j: int| 0 <= i < j < s.len() ==> s[i] < s[j]
}

/// Number of occupied slots.
pub open spec fn count_some<A>(s: Seq<Option<A>>) -> nat
    decreases s.len(),
{
    if s.len() == 0 {
        0
    } else {
        count_some(s.drop_last()) + if s.last() is Some {
            1nat
        } else {
            0nat
        }
    }
}

/// Number of entries of a 48-way byte table that name a slot.
pub open spec fn count_mapped(s: Seq<u8>) -> nat
    decreases s.len(),
{
    if s.len() == 0 {
        0
    } else {
        count_mapped(s.drop_last()) + if s.last() != N48_ABSENT {
            1nat
        } else {
            0nat
        }
    }
}

/// Every key `k` found under child `c`, which byte `b` selects in a node at depth `d` with
/// compressed path `fp`, runs through that path and that byte.
pub open spec fn child_keys_ok<T>(c: Node<T>, d: nat, fp: Seq<u8>, b: u8) -> bool {
    forall|k: Seq<u8>|
        #[trigger] c.get(k, d + fp.len() + 1) is Some ==> {
            &&& k.len() > d + fp.len()
            &&& k[d + fp.len() as int] == b
            &&& k.subrange(d as int, d + fp.len() as int) == fp
        }
}

impl<T> Node4<T> {
    /// The layout holds, whatever the number of children.
    pub open spec fn shape_ok(&self) -> bool {
        &&& self.key@.len() == self.info.count
        &&& self.children@.len() == self.info.count
        &&& self.info.count <= 4
        &&& strictly_sorted(self.key@)
    }

    pub open spec fn shape_wf(&self) -> bool {
        &&& self.shape_ok()
        &&& 2 <= self.info.count
    }
}

impl<T> Node16<T> {
    /// The layout holds, whatever the number of children.
    pub open spec fn shape_ok(&self) -> bool {
        &&& self.key@.len() == self.info.count
        &&& self.children@.len() == self.info.count
        &&& self.info.count <= 16
        &&& strictly_sorted(self.key@)
    }

    pub open spec fn shape_wf(&self) -> bool {
        &&& self.shape_ok()
        &&& 4 <= self.info.count
    }
}

impl<T> Node48<T> {
    /// The layout holds, whatever the number of children.
    pub open spec fn shape_ok(&self) -> bool {
        &&& self.key@.len() == 256
        &&& self.children@.len() == 48
        &&& forall|b: int|
            0 <= b < 256 ==> (#[trigger] self.key@[b] == N48_ABSENT || (self.key@[b] < 48
                && self.children@[self.key@[b] as int] is Some))
        &&& forall|b1: int, b2: int|
            0 <= b1 < 256 && 0 <= b2 < 256 && b1 != b2 && #[trigger] self.key@[b1] != N48_ABSENT
                ==> self.key@[b1] != #[trigger] self.key@[b2]
        &&& self.info.count == count_some(self.children@)
        &&& self.info.count == count_mapped(self.key@)
        &&& self.info.count <= 48
    }

    pub open spec fn shape_wf(&self) -> bool {
        &&& self.shape_ok()
        &&& 13 <= self.info.count
    }

    pub open spec fn child(&self, b: u8) -> Option<Node<T>> {
        let slot = self.key@[b as int] as int;
        if slot < self.children@.len() {
            self.children@[slot]
        } else {
            None
        }
    }
}

/// Slot `i` is the first free slot of `s`.
pub open spec fn first_free<A>(s: Seq<Option<A>>, i: int) -> bool {
    &&& 0 <= i < s.len()
    &&& s[i] is None
    &&& forall|j: int| 0 <= j < i ==> s[j] is Some
}

impl<T> Node48<T> {
    /// `self` is `o` with child `c` added for byte `b` in the first free slot.
    pub open spec fn added(&self, o: Node48<T>, b: u8, c: Node<T>) -> bool {
        exists|s: int|
            first_free(o.children@, s) && self.key@ == o.key@.update(b as int, s as u8)
                && self.children@ == o.children@.update(s, Some(c))
    }

    /// `self` holds the children of the parallel sorted arrays `keys` and `children` in
    /// slots `0..keys.len()`, in order, and no other.
    pub open spec fn laid_out_from(&self, keys: Seq<u8>, children: Seq<Node<T>>) -> bool {
        &&& self.key@.len() == 256
        &&& self.children@.len() == 48
        &&& forall|i: int| 0 <= i < keys.len() ==> self.key@[#[trigger] keys[i] as int] == i
        &&& forall|i: int| 0 <= i < keys.len() ==> #[trigger] self.children@[i] == Some(children[i])
        &&& forall|j: int| keys.len() <= j < 48 ==> self.children@[j] is None
        &&& forall|x: int|
            0 <= x < 256 ==> #[trigger] self.key@[x] == N48_ABSENT || (self.key@[x] < keys.len()
                && keys[self.key@[x] as int] == x)
    }

    /// `self` holds the occupied slots of the 256-way array `src` packed into slots
    /// `0..`, in byte order: the slot of a byte is the number of occupied bytes below it.
    pub open spec fn compacted_from(&self, src: Seq<Option<Node<T>>>) -> bool {
        &&& self.key@.len() == 256
        &&& self.children@.len() == 48
        &&& forall|x: int|
            0 <= x < 256 ==> if src[x] is Some {
                &&& #[trigger] self.key@[x] as nat == count_some(src.take(x))
                &&& self.children@[self.key@[x] as int] == src[x]
            } else {
                self.key@[x] == N48_ABSENT
            }
        &&& forall|j: int| count_some(src) <= j < 48 ==> self.children@[j] is None
    }
}

impl<T> Node256<T> {
    /// The layout holds, whatever the number of children.
    pub open spec fn shape_ok(&self) -> bool {
        &&& self.children@.len() == 256
        &&& self.info.count == count_some(self.children@)
        &&& self.info.count <= 256
    }

    pub open spec fn shape_wf(&self) -> bool {
        &&& self.shape_ok()
        &&& 36 <= self.info.count
    }

    pub open spec fn child(&self, b: u8) -> Option<Node<T>> {
        if (b as int) < self.children@.len() {
            self.children@[b as int]
        } else {
            None
        }
    }
}

impl<T> Node<T> {
    pub open spec fn is_leaf(self) -> bool {
        self is Leaf
    }

    pub open spec fn info(self) -> Info {
        match self {
            Node::Leaf(_) => arbitrary(),
            Node::N4(n) => n.info,
            Node::N16(n) => n.info,
            Node::N48(n) => n.info,
            Node::N256(n) => n.info,
        }
    }

    /// Most children the variant holds; 0 for a leaf.
    pub open spec fn capacity(self) -> nat {
        match self {
            Node::Leaf(_) => 0,
            Node::N4(_) => 4,
            Node::N16(_) => 16,
            Node::N48(_) => 48,
            Node::N256(_) => 256,
        }
    }

    /// Length of the compressed path of an inner node.
    pub open spec fn plen(self) -> nat {
        self.info().partial_len as nat
    }

    /// The compressed path of an inner node.
    pub open spec fn prefix(self) -> Seq<u8> {
        self.info().prefix@
    }

    /// The child that byte `b` selects, for an inner node.
    pub open spec fn child_at(self, b: u8) -> Option<Node<T>> {
        match self {
            Node::Leaf(_) => None,
            Node::N4(n) => sorted_child(n.key@, n.children@, b),
            Node::N16(n) => sorted_child(n.key@, n.children@, b),
            Node::N48(n) => n.child(b),
            Node::N256(n) => n.child(b),
        }
    }

    /// The value that a search for `k` finds, with `d` bytes of `k` consumed on the way here.
    pub open spec fn get(self, k: Seq<u8>, d: nat) -> Option<T>
        decreases k.len() - d,
    {
        match self {
            Node::Leaf(l) => if l.key@ == k {
                Some(l.value)
            } else {
                None
            },
            _ => {
                let p = d + self.plen();
                if p < k.len() {
                    match self.child_at(k[p as int]) {
                        Some(c) => c.get(k, (p + 1) as nat),
                        None => None,
                    }
                } else {
                    None
                }
            },
        }
    }

    /// The layout of the variant holds, whatever the number of children.
    pub open spec fn shape_ok(self) -> bool {
        match self {
            Node::Leaf(_) => true,
            Node::N4(n) => n.shape_ok(),
            Node::N16(n) => n.shape_ok(),
            Node::N48(n) => n.shape_ok(),
            Node::N256(n) => n.shape_ok(),
        }
    }

    /// The representation invariant of the variant.
    pub open spec fn shape_wf(self) -> bool {
        match self {
            Node::Leaf(_) => true,
            Node::N4(n) => n.shape_wf(),
            Node::N16(n) => n.shape_wf(),
            Node::N48(n) => n.shape_wf(),
            Node::N256(n) => n.shape_wf(),
        }
    }

    /// The subtree is well formed when reached with `d` key bytes consumed.
    pub open spec fn wf(self, d: nat) -> bool
        decreases self,
    {
        proof {
            assert forall|b: u8| self.child_at(b) is Some implies decreases_to!(self => self.child_at(b)->Some_0) by {
                self.lemma_child_decreases(b);
            }
        }
        match self {
            Node::Leaf(_) => true,
            _ => {
                &&& self.shape_wf()
                &&& info_wf(self.info())
                &&& forall|b: u8|
                    #[trigger] self.child_at(b) is Some ==> {
                        let c = self.child_at(b)->Some_0;
                        &&& c.wf(d + self.plen() + 1)
                        &&& child_keys_ok(c, d, self.prefix(), b)
                    }
            },
        }
    }

    /// Number of nodes in the subtree: this one and those below it.
    pub open spec fn size(self) -> nat
        decreases self, 257int,
    {
        match self {
            Node::Leaf(_) => 1,
            _ => 1 + self.children_size(256),
        }
    }

    /// Number of nodes below the children of bytes `0..b`.
    pub open spec fn children_size(self, b: int) -> nat
        decreases self, b,
    {
        proof {
            if 0 < b <= 256 && self.child_at((b - 1) as u8) is Some {
                self.lemma_child_decreases((b - 1) as u8);
            }
        }
        if b <= 0 || b > 256 {
            0
        } else {
            self.children_size(b - 1) + match self.child_at((b - 1) as u8) {
                Some(c) => c.size(),
                None => 0,
            }
        }
    }

    /// Number of children of the inner node whose child slot holds the leaf that a search
    /// for `k` reaches; 0 when that leaf is the node itself or there is none.
    pub open spec fn holder_count(self, k: Seq<u8>, d: nat) -> nat
        decreases k.len() - d,
    {
        match self {
            Node::Leaf(_) => 0,
            _ => {
                let p = d + self.plen();
                if p < k.len() {
                    match self.child_at(k[p as int]) {
                        Some(c) => if c.is_leaf() {
                            self.info().count as nat
                        } else {
                            c.holder_count(k, (p + 1) as nat)
                        },
                        None => 0,
                    }
                } else {
                    0
                }
            },
        }
    }

    pub proof fn lemma_child_decreases(self, b: u8)
        requires
            self.child_at(b) is Some,
        ensures
            decreases_to!(self => self.child_at(b)->Some_0),
    {
        match self {
            Node::Leaf(_) => {},
            Node::N4(n) => {
                let i = choose|i: int| 0 <= i < n.key@.len() && i < n.children@.len() && n.key@[i] == b;
                assert(decreases_to!(n.children => n.children@[i]));
            },
            Node::N16(n) => {
                let i = choose|i: int| 0 <= i < n.key@.len() && i < n.children@.len() && n.key@[i] == b;
                assert(decreases_to!(n.children => n.children@[i]));
            },
            Node::N48(n) => {
                let slot = n.key@[b as int] as int;
                assert(decreases_to!(n.children => n.children@[slot]));
            },
            Node::N256(n) => {
                assert(decreases_to!(n.children => n.children@[b as int]));
            },
        }
    }
}

/// The value that a search for `k` finds below an optional child.
pub open spec fn opt_get<T>(o: Option<Node<T>>, k: Seq<u8>, d: nat) -> Option<T> {
    match o {
        Some(c) => c.get(k, d),
        None => None,
    }
}

/// `a` is a prefix of `b`.
pub open spec fn is_prefix(a: Seq<u8>, b: Seq<u8>) -> bool {
    a.len() <= b.len() && b.take(a.len() as int) == a
}

/// Two keys can stand in one tree: equal, or neither a prefix of the other.
pub open spec fn prefix_free_pair(a: Seq<u8>, b: Seq<u8>) -> bool {
    a == b || (!is_prefix(a, b) && !is_prefix(b, a))
}

/// Every key below `node` agrees with `key` on the `d` bytes consumed to reach it.
pub open spec fn agrees_below<T>(node: Node<T>, d: nat, key: Seq<u8>) -> bool {
    forall|k: Seq<u8>|
        #[trigger] node.get(k, d) is Some ==> k.len() >= d && k.take(d as int) == key.take(d as int)
}

/// No key below `node` is a proper prefix of `key`, nor the other way round.
pub open spec fn compatible_below<T>(node: Node<T>, d: nat, key: Seq<u8>) -> bool {
    forall|k: Seq<u8>| #[trigger] node.get(k, d) is Some ==> prefix_free_pair(k, key)
}

/// Number of nodes below an optional child.
pub open spec fn opt_size<T>(o: Option<Node<T>>) -> nat {
    match o {
        Some(c) => c.size(),
        None => 0,
    }
}

/// Nodes that differ in the child of byte `x` alone differ in size by the sizes of those
/// children.
pub proof fn lemma_size_replace<T>(a: Node<T>, b: Node<T>, x: u8, i: int)
    requires
        !a.is_leaf(),
        !b.is_leaf(),
        forall|y: u8| y != x ==> #[trigger] a.child_at(y) == b.child_at(y),
        0 <= i <= 256,
    ensures
        b.children_size(i) + (if x < i {
            opt_size(a.child_at(x))
        } else {
            0
        }) == a.children_size(i) + (if x < i {
            opt_size(b.child_at(x))
        } else {
            0
        }),
    decreases i,
{
    if i > 0 {
        lemma_size_replace(a, b, x, i - 1);
        if (i - 1) as u8 != x {
            assert(a.child_at((i - 1) as u8) == b.child_at((i - 1) as u8));
        }
    }
}

/// The size of an inner node whose only children are those of bytes `x1` and `x2`.
pub proof fn lemma_size_two<T>(a: Node<T>, x1: u8, x2: u8, i: int)
    requires
        !a.is_leaf(),
        x1 != x2,
        forall|y: u8| y != x1 && y != x2 ==> #[trigger] a.child_at(y) is None,
        0 <= i <= 256,
    ensures
        a.children_size(i) == (if x1 < i {
            opt_size(a.child_at(x1))
        } else {
            0
        }) + (if x2 < i {
            opt_size(a.child_at(x2))
        } else {
            0
        }),
    decreases i,
{
    if i > 0 {
        lemma_size_two(a, x1, x2, i - 1);
        let y = (i - 1) as u8;
        if y != x1 && y != x2 {
            assert(a.child_at(y) is None);
        }
    }
}

/// Facts about a key that an inner node holds.
pub proof fn lemma_get_inner<T>(node: Node<T>, k: Seq<u8>, d: nat)
    requires
        node.wf(d),
        !node.is_leaf(),
        node.get(k, d) is Some,
    ensures
        k.len() > d + node.plen(),
        k.subrange(d as int, (d + node.plen()) as int) == node.prefix(),
        node.child_at(k[(d + node.plen()) as int]) is Some,
        node.get(k, d) == node.child_at(k[(d + node.plen()) as int])->Some_0.get(k, d + node.plen() + 1),
{
    let p = d + node.plen();
    let c = node.child_at(k[p as int])->Some_0;
    assert(c.get(k, d + node.prefix().len() + 1) is Some);
}

/// A wf subtree holds some key.
pub proof fn lemma_witness<T>(node: Node<T>, d: nat) -> (k: Seq<u8>)
    requires
        node.wf(d),
    ensures
        node.get(k, d) is Some,
    decreases node,
{
    match node {
        Node::Leaf(l) => l.key@,
        _ => {
            let b: u8 = match node {
                Node::N4(n) => {
                    crate::inner::lemma_sorted_child(n.key@, n.children@);
                    n.key@[0]
                },
                Node::N16(n) => {
                    crate::inner::lemma_sorted_child(n.key@, n.children@);
                    n.key@[0]
                },
                Node::N48(n) => {
                    crate::counting::lemma_count_mapped_bounds(n.key@);
                    let x = choose|x: int| 0 <= x < n.key@.len() && n.key@[x] != N48_ABSENT;
                    assert(n.key@[x] < 48);
                    x as u8
                },
                Node::N256(n) => {
                    crate::counting::lemma_count_some_bounds(n.children@);
                    let x = choose|x: int| 0 <= x < n.children@.len() && n.children@[x] is Some;
                    x as u8
                },
                Node::Leaf(_) => 0,
            };
            assert(node.child_at(b) is Some);
            let c = node.child_at(b)->Some_0;
            node.lemma_child_decreases(b);
            let k = lemma_witness(c, d + node.plen() + 1);
            assert(c.get(k, d + node.prefix().len() + 1) is Some);
            k
        },
    }
}

/// Replacing, adding or removing the child of byte `b` changes only the keys under `b`.
pub proof fn lemma_replace_child<T>(old: Node<T>, new: Node<T>, b: u8, d: nat)
    requires
        old.wf(d),
        !old.is_leaf(),
        !new.is_leaf(),
        new.shape_wf(),
        same_path(new.info(), old.info()),
        forall|x: u8| x != b ==> #[trigger] new.child_at(x) == old.child_at(x),
        new.child_at(b) is Some ==> {
            let c = new.child_at(b)->Some_0;
            &&& c.wf(d + old.plen() + 1)
            &&& child_keys_ok(c, d, old.prefix(), b)
        },
    ensures
        new.wf(d),
        new.plen() == old.plen(),
        new.prefix() == old.prefix(),
        forall|k: Seq<u8>|
            #[trigger] new.get(k, d) == if k.len() > d + old.plen() && k[(d + old.plen()) as int] == b {
                opt_get(new.child_at(b), k, d + old.plen() + 1)
            } else {
                old.get(k, d)
            },
{
    assert forall|x: u8| #[trigger] new.child_at(x) is Some implies ({
        let c = new.child_at(x)->Some_0;
        &&& c.wf(d + new.plen() + 1)
        &&& child_keys_ok(c, d, new.prefix(), x)
    }) by {
        if x != b {
            assert(old.child_at(x) is Some);
        }
    }
}

/// Number of equal leading bytes of `a` and `b`.
pub fn common_prefix(a: &[u8], b: &[u8]) -> (r: usize)
    ensures
        r <= a@.len(),
        r <= b@.len(),
        a@.take(r as int) == b@.take(r as int),
        r < a@.len() && r < b@.len() ==> a@[r as int] != b@[r as int],
{
    let mut i: usize = 0;
    while i < a.len() && i < b.len() && a[i] == b[i]
        invariant
            i <= a@.len(),
            i <= b@.len(),
            a@.take(i as int) == b@.take(i as int),
        decreases a@.len() - i,
    {
        proof {
            assert(a@.take(i + 1) == a@.take(i as int).push(a@[i as int]));
            assert(b@.take(i + 1) == b@.take(i as int).push(b@[i as int]));
        }
        i = i + 1;
    }
    i
}

/// Whether two byte strings are equal.
pub fn bytes_equal(a: &Vec<u8>, b: &Vec<u8>) -> (r: bool)
    ensures
        r == (a@ == b@),
{
    if a.len() != b.len() {
        return false;
    }
    let n = common_prefix(a.as_slice(), b.as_slice());
    proof {
        if n == a.len() {
            assert(a@ == a@.take(n as int));
            assert(b@ == b@.take(n as int));
        }
    }
    n == a.len()
}

impl<T> Node<T> {
    pub fn info_ref(&self) -> (r: &Info)
        requires
            !self.is_leaf(),
        ensures
            *r == self.info(),
    {
        match self {
            Node::Leaf(_) => {
                unreached()
            },
            Node::N4(n) => &n.info,
            Node::N16(n) => &n.info,
            Node::N48(n) => &n.info,
            Node::N256(n) => &n.info,
        }
    }

    /// The child that byte `b` selects.
    pub fn find_child(&self, b: u8) -> (r: Option<&Node<T>>)
        requires
            !self.is_leaf(),
            self.shape_wf(),
        ensures
            r is Some == self.child_at(b) is Some,
            r is Some ==> *r->Some_0 == self.child_at(b)->Some_0,
    {
        match self {
            Node::Leaf(_) => None,
            Node::N4(n) => sorted_find(&n.key, &n.children, b),
            Node::N16(n) => sorted_find(&n.key, &n.children, b),
            Node::N48(n) => {
                let slot = n.key[b as usize];
                if slot != N48_ABSENT {
                    n.children[slot as usize].as_ref()
                } else {
                    None
                }
            },
            Node::N256(n) => n.children[b as usize].as_ref(),
        }
    }
}

/// Looks `key` up below `node`, reached with `depth` bytes of `key` consumed: the stored
/// part of each compressed path must match, and the leaf must hold exactly `key`.
pub fn search<'a, T>(node: &'a Node<T>, key: &Vec<u8>, depth: usize) -> (r: Option<&'a T>)
    requires
        node.wf(depth as nat),
        depth <= key@.len(),
    ensures
        r is Some == node.get(key@, depth as nat) is Some,
        r is Some ==> *r->Some_0 == node.get(key@, depth as nat)->Some_0,
    decreases key@.len() - depth,
{
    match node {
        Node::Leaf(l) => {
            if bytes_equal(&l.key, key) {
                Some(&l.value)
            } else {
                None
            }
        },
        _ => {
            let info = node.info_ref();
            let plen = info.partial_len;
            if plen >= key.len() - depth {
                return None;
            }
            let n = common_prefix(info.partial.as_slice(), &key[depth..key.len()]);
            if n < info.partial.len() {
                proof {
                    let d = depth as nat;
                    let p = d + node.plen();
                    if node.get(key@, d) is Some {
                        let c = node.child_at(key@[p as int])->Some_0;
                        assert(c.get(key@, d + node.prefix().len() + 1) is Some);
                        assert(key@.subrange(d as int, p as int) == node.prefix());
                        assert(info.partial@[n as int] == node.prefix()[n as int]);
                        assert(key@.subrange(depth as int, key@.len() as int)[n as int] == key@[depth + n]);
                    }
                }
                return None;
            }
            let p = depth + plen;
            match node.find_child(key[p]) {
                Some(c) => search(c, key, p + 1),
                None => None,
            }
        },
    }
}

/// Linear search of parallel sorted arrays for byte `b`.
fn sorted_find<'a, T>(keys: &Vec<u8>, children: &'a Vec<Node<T>>, b: u8) -> (r: Option<&'a Node<T>>)
    requires
        keys@.len() == children@.len(),
        strictly_sorted(keys@),
    ensures
        r is Some == sorted_child(keys@, children@, b) is Some,
        r is Some ==> *r->Some_0 == sorted_child(keys@, children@, b)->Some_0,
{
    let mut i: usize = 0;
    while i < keys.len()
        invariant
            keys@.len() == children@.len(),
            strictly_sorted(keys@),
            i <= keys@.len(),
            forall|j: int| 0 <= j < i ==> keys@[j] != b,
        decreases keys@.len() - i,
    {
        if keys[i] == b {
            proof {
                assert(0 <= i < keys@.len() && i < children@.len() && keys@[i as int] == b);
                let c = choose|j: int| 0 <= j < keys@.len() && j < children@.len() && keys@[j] == b;
                assert(c == i as int) by {
                    if c < i { } else if c > i { assert(keys@[i as int] < keys@[c]); }
                }
            }
            return Some(&children[i]);
        }
        i = i + 1;
    }
    None
}

} // verus!

//! A set of record fingerprints, kept as a 16-ary hash trie.
//!
//! A fingerprint is a 64-bit hash together with the bytes it was computed
//! from. The trie is walked four bits of the hash at a time, lowest bits
//! first. A slot holds nothing, one fingerprint, a deeper branch, or, once
//! all sixteen groups of four bits are used up, a list of the fingerprints
//! that share the whole hash.
//!
//! Nodes live in arenas and are named by their index. An arena only grows:
//! a node, once placed, stays where it is until the set is dropped.

use crate::allocators::Slab;
use vstd::prelude::*;

verus! {

/// Bits of the hash that select a slot at one level.
pub const SHIFT_SIZE: usize = 4;

/// Slots of a branch.
pub const BRANCH_LEN: usize = 16;

/// Levels of branches; below the last level collisions go to a list.
pub const MAX_LEVEL: usize = 16;

/// A hash and the bytes it belongs to.
pub type Fingerprint = (u64, Seq<u8>);

/// The SeaHash of `bytes` under the function's fixed seed.
pub uninterp spec fn seahash_of(bytes: Seq<u8>) -> u64;

/// Taken on trust of `seahash::hash`: its result is a function of the
/// bytes alone. It reads the buffer in little-endian order on every machine
/// and uses a seed that is part of the function.
pub assume_specification[ seahash::hash ](buf: &[u8]) -> (h: u64)
    ensures
        h == seahash_of(buf@),
;

/// The slot that `hash` selects in a branch at `level`.
pub open spec fn slot(hash: u64, level: int) -> int {
    ((hash >> ((level * 4) as u64)) % 16) as int
}

fn slot_of(hash: u64, level: usize) -> (index: usize)
    requires
        level < MAX_LEVEL,
    ensures
        index == slot(hash, level as int),
        index < BRANCH_LEN,
{
    let shift: u64 = (level * SHIFT_SIZE) as u64;
    ((hash >> shift) % 16) as usize
}

/// Whether two byte strings are the same, byte for byte.
pub fn bytes_eq(a: &[u8], b: &[u8]) -> (r: bool)
    ensures
        r == (a@ == b@),
{
    if a.len() != b.len() {
        return false;
    }
    let mut i: usize = 0;
    while i < a.len()
        invariant
            a@.len() == b@.len(),
            i <= a@.len(),
            forall|j: int| 0 <= j < i ==> a@[j] == b@[j],
        decreases a@.len() - i,
    {
        if a[i] != b[i] {
            return false;
        }
        i += 1;
    }
    assert(a@ =~= b@);
    true
}

/// A fingerprint as the set stores it.
#[derive(Clone, Copy, Debug)]
pub struct ValueNode<'a> {
    hash: u64,
    value: &'a [u8],
}

impl<'a> ValueNode<'a> {
    /// The fingerprint this node stands for.
    pub closed spec fn fingerprint(&self) -> Fingerprint {
        (self.hash, self.value@)
    }

    /// The node for `value` under `hash`.
    pub fn new(hash: u64, value: &'a [u8]) -> (r: ValueNode<'a>)
        ensures
            r.fingerprint() == (hash, value@),
    {
        ValueNode { hash, value }
    }

    /// Whether this node stands for the fingerprint of `value` under
    /// `hash`: the hashes are compared first, the bytes only when the hashes
    /// agree.
    pub fn is(&self, hash: u64, value: &[u8]) -> (r: bool)
        ensures
            r == (self.fingerprint() == (hash, value@)),
    {
        if self.hash != hash {
            false
        } else {
            bytes_eq(self.value, value)
        }
    }

    /// Whether two nodes stand for the same fingerprint.
    pub fn eq(&self, rhs: &ValueNode<'a>) -> (r: bool)
        ensures
            r == (self.fingerprint() == rhs.fingerprint()),
    {
        self.is(rhs.hash, rhs.value)
    }
}

/// A link of a collision list: one fingerprint, and the link after it.
#[derive(Clone, Copy, Debug)]
struct ListNode {
    next: Option<usize>,
    val_node: usize,
}

impl ListNode {
    /// A last link that holds the value node at `val_node`.
    fn new(val_node: usize) -> (r: ListNode)
        ensures
            r.next is None,
            r.val_node == val_node,
    {
        ListNode { next: None, val_node }
    }
}

/// What a slot of a branch holds. The number is the node's index in its
/// arena.
#[derive(Clone, Copy, Debug, PartialEq, Eq, Structural)]
enum EntryType {
    /// Nothing yet.
    Empty,
    /// One fingerprint.
    Value(usize),
    /// A branch one level down.
    Branch(usize),
    /// A list of fingerprints with the same hash.
    List(usize),
}

/// Sixteen slots, and the level at which they are looked up.
struct Branch {
    entries: Vec<EntryType>,
    level: usize,
}

impl Branch {
    /// Puts value node `val`, whose hash is `hash`, into the slot it
    /// belongs to. The branch is not part of a set yet, so nothing else can
    /// be in the way.
    fn insert_uncontested(&mut self, val: usize, hash: u64)
        requires
            old(self).level < MAX_LEVEL,
            old(self).entries@.len() == BRANCH_LEN,
        ensures
            final(self).level == old(self).level,
            final(self).entries@ == old(self).entries@.update(
                slot(hash, old(self).level as int),
                EntryType::Value(val),
            ),
    {
        let index: usize = slot_of(hash, self.level);
        self.entries[index] = EntryType::Value(val);
    }

    /// A branch of empty slots at `level`.
    fn new(level: usize) -> (r: Branch)
        ensures
            r.level == level,
            r.entries@.len() == BRANCH_LEN,
            forall|s: int| 0 <= s < BRANCH_LEN ==> r.entries@[s] == EntryType::Empty,
    {
        let mut entries: Vec<EntryType> = Vec::with_capacity(BRANCH_LEN);
        let mut s: usize = 0;
        while s < BRANCH_LEN
            invariant
                s <= BRANCH_LEN,
                entries@.len() == s,
                forall|t: int| 0 <= t < s ==> entries@[t] == EntryType::Empty,
            decreases BRANCH_LEN - s,
        {
            entries.push(EntryType::Empty);
            s += 1;
        }
        Branch { entries, level }
    }
}

/// A set of fingerprints.
pub struct GumSet<'a> {
    values: Slab<ValueNode<'a>>,
    branches: Slab<Branch>,
    lists: Slab<ListNode>,
}

impl<'a> GumSet<'a> {
    spec fn fp(&self, v: int) -> Fingerprint {
        self.values@[v].fingerprint()
    }

    /// The fingerprints that have been inserted.
    pub closed spec fn fingerprints(&self) -> Set<Fingerprint> {
        Set::new(|fp: Fingerprint| exists|v: int| 0 <= v < self.values@.len() && self.fp(v) == fp)
    }

    /// The keys that have been inserted under their SeaHash.
    pub open spec fn view(&self) -> Set<Seq<u8>> {
        Set::new(|key: Seq<u8>| self.fingerprints().contains((seahash_of(key), key)))
    }

    /// Whether the list that starts at link `l` holds `fp`.
    spec fn list_has(&self, l: int, fp: Fingerprint) -> bool
        decreases self.lists@.len() - l,
    {
        if 0 <= l < self.lists@.len() {
            let node = self.lists@[l];
            if node.val_node < self.values@.len() && self.fp(node.val_node as int) == fp {
                true
            } else {
                match node.next {
                    Some(m) => if l < m < self.lists@.len() {
                        self.list_has(m as int, fp)
                    } else {
                        false
                    },
                    None => false,
                }
            }
        } else {
            false
        }
    }

    /// Whether link `n` can be reached from link `l`.
    spec fn list_reaches(&self, l: int, n: int) -> bool
        decreases self.lists@.len() - l,
    {
        if 0 <= l < self.lists@.len() {
            if l == n {
                true
            } else {
                match self.lists@[l].next {
                    Some(m) => if l < m < self.lists@.len() {
                        self.list_reaches(m as int, n)
                    } else {
                        false
                    },
                    None => false,
                }
            }
        } else {
            false
        }
    }

    /// Whether a lookup of `fp` that has come to branch `b` finds it.
    spec fn branch_has(&self, b: int, fp: Fingerprint) -> bool
        decreases MAX_LEVEL - self.branches@[b].level,
    {
        if 0 <= b < self.branches@.len() && self.branches@[b].level < MAX_LEVEL
            && self.branches@[b].entries@.len() == BRANCH_LEN {
            let level = self.branches@[b].level as int;
            match self.branches@[b].entries@[slot(fp.0, level)] {
                EntryType::Empty => false,
                EntryType::Value(v) => v < self.values@.len() && self.fp(v as int) == fp,
                EntryType::Branch(c) => c < self.branches@.len() && self.branches@[c as int].level
                    == level + 1 && self.branch_has(c as int, fp),
                EntryType::List(l) => self.list_has(l as int, fp),
            }
        } else {
            false
        }
    }

    /// The branch that a lookup of `hash` is in after `depth` steps down
    /// from the root, if it gets that far.
    spec fn path(&self, hash: u64, depth: nat) -> Option<int>
        decreases depth,
    {
        if depth == 0 {
            Some(0)
        } else {
            match self.path(hash, (depth - 1) as nat) {
                Some(p) => if 0 <= p < self.branches@.len() && self.branches@[p].entries@.len()
                    == BRANCH_LEN {
                    match self.branches@[p].entries@[slot(hash, depth - 1)] {
                        EntryType::Branch(c) => Some(c as int),
                        _ => None,
                    }
                } else {
                    None
                },
                None => None,
            }
        }
    }

    /// A bound on the steps that an insertion of `hash` has left when it is
    /// at branch `b`: two for every level below, and one more if the slot
    /// has to be made room in first.
    spec fn steps_left(&self, b: int, hash: u64) -> int {
        let level = self.branches@[b].level as int;
        2 * (MAX_LEVEL - level) + if self.branches@[b].entries@[slot(hash, level)] is Value {
            1int
        } else {
            0int
        }
    }

    /// Every index that a slot or a link holds names a node, a value node
    /// sits in the slot that its hash selects at the level of its branch,
    /// branches lie one level below the branch that points to them, lists
    /// hang off the last level only, and links point forward.
    spec fn wf_struct(&self) -> bool {
        &&& self.branches@.len() >= 1
        &&& self.branches@[0].level == 0
        &&& forall|b: int|
            0 <= b < self.branches@.len() ==> (#[trigger] self.branches@[b]).entries@.len()
                == BRANCH_LEN && self.branches@[b].level < MAX_LEVEL
        &&& forall|b: int, s: int|
            0 <= b < self.branches@.len() && 0 <= s < BRANCH_LEN ==> self.entry_ok(
                b,
                s,
                #[trigger] self.branches@[b].entries@[s],
            )
        &&& forall|l: int|
            0 <= l < self.lists@.len() ==> (#[trigger] self.lists@[l]).val_node
                < self.values@.len() && (self.lists@[l].next matches Some(m) ==> l < m
                < self.lists@.len())
    }

    /// What slot `s` of branch `b` may hold.
    spec fn entry_ok(&self, b: int, s: int, e: EntryType) -> bool {
        match e {
            EntryType::Empty => true,
            EntryType::Value(v) => v < self.values@.len() && s == slot(
                self.fp(v as int).0,
                self.branches@[b].level as int,
            ),
            EntryType::Branch(c) => c < self.branches@.len() && self.branches@[c as int].level
                == self.branches@[b].level + 1,
            EntryType::List(l) => l < self.lists@.len() && self.branches@[b].level + 1
                == MAX_LEVEL,
        }
    }

    /// The set is in order: its nodes are linked as they should be, and a
    /// lookup finds every fingerprint that was inserted.
    pub closed spec fn wf(&self) -> bool {
        &&& self.wf_struct()
        &&& forall|v: int| 0 <= v < self.values@.len() ==> self.branch_has(0, #[trigger] self.fp(v))
    }

    /// Whether entry `e`, in a branch at `level`, leads to value node `v`
    /// in one step.
    spec fn covers(&self, e: EntryType, v: int, level: int) -> bool {
        match e {
            EntryType::Branch(c) => {
                &&& c < self.branches@.len()
                &&& self.branches@[c as int].level == level + 1
                &&& self.branches@[c as int].entries@.len() == BRANCH_LEN
                &&& self.branches@[c as int].entries@[slot(self.fp(v).0, level + 1)]
                    == EntryType::Value(v as usize)
            },
            EntryType::List(l) => l < self.lists@.len() && self.lists@[l as int].val_node == v,
            _ => false,
        }
    }

    /// `post` has grown out of `pre`: nodes were added, empty slots were
    /// filled, single fingerprints were pushed one step down, and last
    /// links got a successor. Nothing else changed.
    spec fn extends(pre: &GumSet<'a>, post: &GumSet<'a>) -> bool {
        &&& pre.values@.len() <= post.values@.len()
        &&& forall|v: int| 0 <= v < pre.values@.len() ==> #[trigger] post.fp(v) == pre.fp(v)
        &&& pre.lists@.len() <= post.lists@.len()
        &&& forall|l: int|
            0 <= l < pre.lists@.len() ==> (#[trigger] post.lists@[l]).val_node
                == pre.lists@[l].val_node && (pre.lists@[l].next is Some ==> post.lists@[l].next
                == pre.lists@[l].next)
        &&& pre.branches@.len() <= post.branches@.len()
        &&& forall|b: int|
            0 <= b < pre.branches@.len() ==> (#[trigger] post.branches@[b]).level
                == pre.branches@[b].level
        &&& forall|b: int, s: int|
            0 <= b < pre.branches@.len() && 0 <= s < BRANCH_LEN ==> GumSet::entry_grown(
                pre,
                post,
                b,
                pre.branches@[b].entries@[s],
                #[trigger] post.branches@[b].entries@[s],
            )
    }

    spec fn entry_grown(
        pre: &GumSet<'a>,
        post: &GumSet<'a>,
        b: int,
        before: EntryType,
        after: EntryType,
    ) -> bool {
        ||| after == before
        ||| before == EntryType::Empty
        ||| (before matches EntryType::Value(v) && post.covers(
            after,
            v as int,
            pre.branches@[b].level as int,
        ))
    }
    proof fn lemma_list_has_sound(&self, l: int, fp: Fingerprint)
        requires
            self.list_has(l, fp),
        ensures
            self.fingerprints().contains(fp),
        decreases self.lists@.len() - l,
    {
        let node = self.lists@[l];
        if !(node.val_node < self.values@.len() && self.fp(node.val_node as int) == fp) {
            self.lemma_list_has_sound(node.next->0 as int, fp);
        }
    }

    proof fn lemma_branch_has_sound(&self, b: int, fp: Fingerprint)
        requires
            self.branch_has(b, fp),
        ensures
            self.fingerprints().contains(fp),
        decreases MAX_LEVEL - self.branches@[b].level,
    {
        let level = self.branches@[b].level as int;
        match self.branches@[b].entries@[slot(fp.0, level)] {
            EntryType::Empty => {},
            EntryType::Value(v) => {},
            EntryType::Branch(c) => {
                self.lemma_branch_has_sound(c as int, fp);
            },
            EntryType::List(l) => {
                self.lemma_list_has_sound(l as int, fp);
            },
        }
    }

    /// A lookup fails exactly for the fingerprints that were never inserted.
    proof fn lemma_lookup_decides(&self, fp: Fingerprint)
        requires
            self.wf(),
        ensures
            self.branch_has(0, fp) == self.fingerprints().contains(fp),
    {
        if self.branch_has(0, fp) {
            self.lemma_branch_has_sound(0, fp);
        }
    }

    proof fn lemma_list_has_preserved(pre: &GumSet<'a>, post: &GumSet<'a>, l: int, fp: Fingerprint)
        requires
            pre.wf_struct(),
            GumSet::extends(pre, post),
            pre.list_has(l, fp),
        ensures
            post.list_has(l, fp),
        decreases pre.lists@.len() - l,
    {
        let node = pre.lists@[l];
        if !(node.val_node < pre.values@.len() && pre.fp(node.val_node as int) == fp) {
            let m = node.next->0 as int;
            GumSet::lemma_list_has_preserved(pre, post, m, fp);
        }
    }

    proof fn lemma_branch_has_preserved(
        pre: &GumSet<'a>,
        post: &GumSet<'a>,
        b: int,
        fp: Fingerprint,
    )
        requires
            pre.wf_struct(),
            post.wf_struct(),
            GumSet::extends(pre, post),
            pre.branch_has(b, fp),
        ensures
            post.branch_has(b, fp),
        decreases MAX_LEVEL - pre.branches@[b].level,
    {
        let level = pre.branches@[b].level as int;
        let s = slot(fp.0, level);
        let before = pre.branches@[b].entries@[s];
        let after = post.branches@[b].entries@[s];
        match before {
            EntryType::Empty => {},
            EntryType::Value(v) => {
                if after != before {
                    match after {
                        EntryType::Branch(c) => {
                            assert(post.branch_has(c as int, fp));
                        },
                        EntryType::List(l) => {},
                        _ => {},
                    }
                }
            },
            EntryType::Branch(c) => {
                GumSet::lemma_branch_has_preserved(pre, post, c as int, fp);
            },
            EntryType::List(l) => {
                GumSet::lemma_list_has_preserved(pre, post, l as int, fp);
            },
        }
    }

    proof fn lemma_path_level(&self, hash: u64, depth: nat)
        requires
            self.wf_struct(),
            self.path(hash, depth) is Some,
        ensures
            0 <= self.path(hash, depth)->0 < self.branches@.len(),
            self.branches@[self.path(hash, depth)->0].level == depth,
        decreases depth,
    {
        if depth > 0 {
            self.lemma_path_level(hash, (depth - 1) as nat);
        }
    }

    proof fn lemma_has_along_path(&self, fp: Fingerprint, depth: nat)
        requires
            self.wf_struct(),
            self.path(fp.0, depth) is Some,
        ensures
            self.branch_has(0, fp) == self.branch_has(self.path(fp.0, depth)->0, fp),
        decreases depth,
    {
        if depth > 0 {
            let before = (depth - 1) as nat;
            self.lemma_has_along_path(fp, before);
            self.lemma_path_level(fp.0, before);
            self.lemma_path_level(fp.0, depth);
        }
    }

    proof fn lemma_path_preserved(pre: &GumSet<'a>, post: &GumSet<'a>, hash: u64, depth: nat)
        requires
            pre.wf_struct(),
            post.wf_struct(),
            GumSet::extends(pre, post),
            pre.path(hash, depth) is Some,
        ensures
            post.path(hash, depth) == pre.path(hash, depth),
        decreases depth,
    {
        if depth > 0 {
            let before = (depth - 1) as nat;
            GumSet::lemma_path_preserved(pre, post, hash, before);
            pre.lemma_path_level(hash, before);
            let p = pre.path(hash, before)->0;
            let s = slot(hash, depth - 1);
            assert(GumSet::entry_grown(
                pre,
                post,
                p,
                pre.branches@[p].entries@[s],
                post.branches@[p].entries@[s],
            ));
        }
    }

    proof fn lemma_list_reaches_has(&self, l: int, n: int, fp: Fingerprint)
        requires
            self.list_reaches(l, n),
            self.list_has(n, fp),
        ensures
            self.list_has(l, fp),
        decreases self.lists@.len() - l,
    {
        if l != n {
            self.lemma_list_reaches_has(self.lists@[l].next->0 as int, n, fp);
        }
    }

    proof fn lemma_list_reaches_step(&self, l: int, n: int, m: usize)
        requires
            self.list_reaches(l, n),
            0 <= n < m < self.lists@.len(),
            self.lists@[n].next == Some(m),
        ensures
            self.list_reaches(l, m as int),
        decreases self.lists@.len() - l,
    {
        if l != n {
            self.lemma_list_reaches_step(self.lists@[l].next->0 as int, n, m);
        } else {
            assert(self.list_reaches(m as int, m as int));
        }
    }

    proof fn lemma_list_reaches_preserved(pre: &GumSet<'a>, post: &GumSet<'a>, l: int, n: int)
        requires
            GumSet::extends(pre, post),
            pre.list_reaches(l, n),
        ensures
            post.list_reaches(l, n),
        decreases pre.lists@.len() - l,
    {
        if l != n {
            let m = pre.lists@[l].next->0 as int;
            GumSet::lemma_list_reaches_preserved(pre, post, m, n);
        }
    }

    /// Growth that adds no value node keeps the set in order and leaves its
    /// fingerprints as they were.
    proof fn lemma_reshaped(pre: &GumSet<'a>, post: &GumSet<'a>)
        requires
            pre.wf(),
            post.wf_struct(),
            GumSet::extends(pre, post),
            post.values@.len() == pre.values@.len(),
        ensures
            post.wf(),
            post.fingerprints() == pre.fingerprints(),
    {
        assert forall|v: int| 0 <= v < post.values@.len() implies post.branch_has(
            0,
            #[trigger] post.fp(v),
        ) by {
            GumSet::lemma_branch_has_preserved(pre, post, 0, pre.fp(v));
        }
        assert forall|fp: Fingerprint| post.fingerprints().contains(fp)
            == pre.fingerprints().contains(fp) by {
            if pre.fingerprints().contains(fp) {
                let v = choose|v: int| 0 <= v < pre.values@.len() && pre.fp(v) == fp;
                assert(post.fp(v) == fp);
            }
        }
    }

    /// Growth that adds one value node, which a lookup then finds, keeps
    /// the set in order and adds that node's fingerprint to it.
    proof fn lemma_grown(pre: &GumSet<'a>, post: &GumSet<'a>, fp: Fingerprint)
        requires
            pre.wf(),
            post.wf_struct(),
            GumSet::extends(pre, post),
            post.values@.len() == pre.values@.len() + 1,
            post.fp(pre.values@.len() as int) == fp,
            post.branch_has(0, fp),
        ensures
            post.wf(),
            post.fingerprints() == pre.fingerprints().insert(fp),
    {
        assert forall|v: int| 0 <= v < post.values@.len() implies post.branch_has(
            0,
            #[trigger] post.fp(v),
        ) by {
            if v < pre.values@.len() {
                GumSet::lemma_branch_has_preserved(pre, post, 0, pre.fp(v));
            }
        }
        assert forall|other: Fingerprint| post.fingerprints().contains(other)
            == pre.fingerprints().insert(fp).contains(other) by {
            if pre.fingerprints().contains(other) {
                let v = choose|v: int| 0 <= v < pre.values@.len() && pre.fp(v) == other;
                assert(post.fp(v) == other);
            }
        }
    }
    /// A set with nothing in it.
    pub fn new() -> (r: GumSet<'a>)
        ensures
            r.wf(),
            r.fingerprints() == Set::<Fingerprint>::empty(),
            r@ == Set::<Seq<u8>>::empty(),
    {
        let mut branches: Slab<Branch> = Slab::new();
        branches.next(Branch::new(0));
        let r = GumSet { values: Slab::new(), branches, lists: Slab::new() };
        r
    }

    /// The SeaHash of `key`.
    pub fn hash64(&self, key: &[u8]) -> (h: u64)
        ensures
            h == seahash_of(key@),
    {
        seahash::hash(key)
    }

    /// Walks the list that starts at link `head` and looks for the
    /// fingerprint of `key` under `hash`.
    fn list_contains(&self, head: usize, hash: u64, key: &[u8]) -> (r: bool)
        requires
            self.wf_struct(),
            head < self.lists@.len(),
        ensures
            r == self.list_has(head as int, (hash, key@)),
    {
        let mut cur: usize = head;
        loop
            invariant
                self.wf_struct(),
                cur < self.lists@.len(),
                self.list_has(head as int, (hash, key@)) == self.list_has(
                    cur as int,
                    (hash, key@),
                ),
            decreases self.lists@.len() - cur,
        {
            let link: ListNode = *self.lists.get(cur);
            if self.values.get(link.val_node).is(hash, key) {
                return true;
            }
            match link.next {
                None => {
                    return false;
                },
                Some(m) => {
                    cur = m;
                },
            }
        }
    }

    /// Walks the list that starts at link `head`. If a link holds the
    /// fingerprint of `node`, nothing changes. At the last link `node` is
    /// placed in the arena, and a new link for it is hung behind the last;
    /// no other link and no branch changes.
    fn list_insert(&mut self, head: usize, node: ValueNode<'a>) -> (r: bool)
        requires
            old(self).wf_struct(),
            head < old(self).lists@.len(),
        ensures
            r == !old(self).list_has(head as int, node.fingerprint()),
            !r ==> *final(self) == *old(self),
            r ==> {
                &&& final(self).wf_struct()
                &&& GumSet::extends(old(self), final(self))
                &&& final(self).branches@ == old(self).branches@
                &&& final(self).values@ == old(self).values@.push(node)
                &&& final(self).fp(old(self).values@.len() as int) == node.fingerprint()
                &&& final(self).list_has(head as int, node.fingerprint())
                &&& exists|last: int|
                    {
                        &&& #[trigger] old(self).list_reaches(head as int, last)
                        &&& old(self).lists@[last].next is None
                        &&& final(self).lists@ == old(self).lists@.update(
                            last,
                            ListNode {
                                next: Some(old(self).lists@.len() as usize),
                                val_node: old(self).lists@[last].val_node,
                            },
                        ).push(
                            ListNode { next: None, val_node: old(self).values@.len() as usize },
                        )
                    }
            },
    {
        let ghost fp: Fingerprint = node.fingerprint();
        let mut cur: usize = head;
        loop
            invariant
                *self == *old(self),
                self.wf_struct(),
                cur < self.lists@.len(),
                node.fingerprint() == fp,
                self.list_reaches(head as int, cur as int),
                self.list_has(head as int, fp) == self.list_has(cur as int, fp),
            decreases self.lists@.len() - cur,
        {
            let link: ListNode = *self.lists.get(cur);
            if self.values.get(link.val_node).eq(&node) {
                return false;
            }
            match link.next {
                Some(m) => {
                    proof {
                        self.lemma_list_reaches_step(head as int, cur as int, m);
                    }
                    cur = m;
                },
                None => {
                    let v: usize = self.values.next(node);
                    let n: usize = self.lists.next(ListNode::new(v));
                    self.lists.get_mut(cur).next = Some(n);
                    proof {
                        let pre = old(self);
                        assert(pre.list_reaches(head as int, cur as int));
                        assert(self.lists@ =~= pre.lists@.update(
                            cur as int,
                            ListNode { next: Some(n), val_node: pre.lists@[cur as int].val_node },
                        ).push(ListNode { next: None, val_node: v }));
                        assert(GumSet::extends(pre, self));
                        GumSet::lemma_list_reaches_preserved(pre, self, head as int, cur as int);
                        self.lemma_list_reaches_step(head as int, cur as int, n);
                        self.lemma_list_reaches_has(head as int, n as int, fp);
                    }
                    return true;
                },
            }
        }
    }

    /// Pushes the single fingerprint in slot `idx` of branch `cur` one step
    /// down, to make room for another that selects the same slot: into a
    /// new branch, or, below the last level, into a new list. Returns what
    /// the slot holds afterwards.
    fn try_expand(&mut self, cur: usize, idx: usize, v: usize) -> (r: EntryType)
        requires
            old(self).wf(),
            cur < old(self).branches@.len(),
            idx < BRANCH_LEN,
            old(self).branches@[cur as int].entries@[idx as int] == EntryType::Value(v),
        ensures
            final(self).wf(),
            final(self).fingerprints() == old(self).fingerprints(),
            GumSet::extends(old(self), final(self)),
            r == final(self).branches@[cur as int].entries@[idx as int],
            final(self).values@ == old(self).values@,
            forall|b: int|
                0 <= b < old(self).branches@.len() ==> (#[trigger] final(self).branches@[b]).level
                    == old(self).branches@[b].level,
            forall|b: int, s: int|
                0 <= b < old(self).branches@.len() && 0 <= s < BRANCH_LEN && !(b == cur && s
                    == idx) ==> #[trigger] final(self).branches@[b].entries@[s] == old(
                    self,
                ).branches@[b].entries@[s],
            if old(self).branches@[cur as int].level + 1 >= MAX_LEVEL {
                &&& r == EntryType::List(old(self).lists@.len() as usize)
                &&& final(self).lists@ == old(self).lists@.push(
                    ListNode { next: None, val_node: v },
                )
                &&& final(self).branches@.len() == old(self).branches@.len()
            } else {
                &&& r == EntryType::Branch(old(self).branches@.len() as usize)
                &&& final(self).lists@ == old(self).lists@
                &&& final(self).branches@.len() == old(self).branches@.len() + 1
                &&& final(self).branches@.last().level == old(self).branches@[cur as int].level
                    + 1
                &&& final(self).branches@.last().entries@ == Seq::new(
                    BRANCH_LEN as nat,
                    |s: int| EntryType::Empty,
                ).update(
                    slot(
                        old(self).fp(v as int).0,
                        old(self).branches@[cur as int].level + 1,
                    ),
                    EntryType::Value(v),
                )
            },
    {
        let ghost pre = *old(self);
        let level: usize = self.branches.get(cur).level + 1;
        let entry: EntryType = if level >= MAX_LEVEL {
            let leaf: usize = self.lists.next(ListNode::new(v));
            EntryType::List(leaf)
        } else {
            let hash: u64 = self.values.get(v).hash;
            let mut fresh: Branch = Branch::new(level);
            fresh.insert_uncontested(v, hash);
            let brnch: usize = self.branches.next(fresh);
            EntryType::Branch(brnch)
        };
        self.branches.get_mut(cur).entries[idx] = entry;
        proof {
            assert(GumSet::extends(&pre, self));
            GumSet::lemma_reshaped(&pre, self);
        }
        entry
    }

    /// Whether the fingerprint of `key` under `hash` is in the set.
    pub fn contains_fingerprint(&self, hash: u64, key: &[u8]) -> (r: bool)
        requires
            self.wf(),
        ensures
            r == self.fingerprints().contains((hash, key@)),
    {
        let ghost fp: Fingerprint = (hash, key@);
        proof {
            self.lemma_lookup_decides(fp);
        }
        let mut cur: usize = 0;
        loop
            invariant
                self.wf_struct(),
                cur < self.branches@.len(),
                self.branch_has(0, fp) == self.branch_has(cur as int, fp),
                self.branch_has(0, fp) == self.fingerprints().contains(fp),
                fp == (hash, key@),
            decreases MAX_LEVEL - self.branches@[cur as int].level,
        {
            let index: usize = slot_of(hash, self.branches.get(cur).level);
            let candidate: EntryType = self.branches.get(cur).entries[index];
            match candidate {
                EntryType::Branch(brnch) => {
                    cur = brnch;
                },
                EntryType::List(list) => {
                    return self.list_contains(list, hash, key);
                },
                EntryType::Value(old_val) => {
                    return self.values.get(old_val).is(hash, key);
                },
                EntryType::Empty => {
                    return false;
                },
            }
        }
    }

    /// Puts the fingerprint of `key` under `hash` into the set. Returns
    /// `true` if it was not there before.
    pub fn insert_fingerprint(&mut self, hash: u64, key: &'a [u8]) -> (r: bool)
        requires
            old(self).wf(),
        ensures
            final(self).wf(),
            r == !old(self).fingerprints().contains((hash, key@)),
            final(self).fingerprints() == old(self).fingerprints().insert((hash, key@)),
            final(self).fingerprints().contains((hash, key@)),
    {
        let node: ValueNode<'a> = ValueNode::new(hash, key);
        let ghost fp: Fingerprint = (hash, key@);
        let mut cur: usize = 0;
        loop
            invariant
                self.wf(),
                self.fingerprints() == old(self).fingerprints(),
                cur < self.branches@.len(),
                self.path(hash, self.branches@[cur as int].level as nat) == Some(cur as int),
                node.fingerprint() == fp,
                fp == (hash, key@),
            decreases self.steps_left(cur as int, hash),
        {
            let level: usize = self.branches.get(cur).level;
            let index: usize = slot_of(hash, level);
            let old_entry: EntryType = self.branches.get(cur).entries[index];
            let ghost pre = *self;
            proof {
                self.lemma_has_along_path(fp, level as nat);
                self.lemma_lookup_decides(fp);
            }
            match old_entry {
                EntryType::Empty => {
                    let newval: usize = self.values.next(node);
                    self.branches.get_mut(cur).entries[index] = EntryType::Value(newval);
                    proof {
                        assert(GumSet::extends(&pre, self));
                        GumSet::lemma_path_preserved(&pre, self, hash, level as nat);
                        self.lemma_has_along_path(fp, level as nat);
                        GumSet::lemma_grown(&pre, self, fp);
                    }
                    return true;
                },
                EntryType::Branch(brnch) => {
                    cur = brnch;
                },
                EntryType::List(list) => {
                    let added: bool = self.list_insert(list, node);
                    proof {
                        if added {
                            GumSet::lemma_path_preserved(&pre, self, hash, level as nat);
                            self.lemma_has_along_path(fp, level as nat);
                            GumSet::lemma_grown(&pre, self, fp);
                        }
                    }
                    return added;
                },
                EntryType::Value(old_val) => {
                    if self.values.get(old_val).eq(&node) {
                        return false;
                    }
                    self.try_expand(cur, index, old_val);
                    proof {
                        GumSet::lemma_path_preserved(&pre, self, hash, level as nat);
                    }
                },
            }
        }
    }

    /// Puts `key` into the set. Returns `true` if it was not there before.
    /// Afterwards the set holds `key`, whatever it returned, and with it
    /// all it held before.
    pub fn insert(&mut self, key: &'a [u8]) -> (r: bool)
        requires
            old(self).wf(),
        ensures
            final(self).wf(),
            r == !old(self)@.contains(key@),
            final(self)@ == old(self)@.insert(key@),
            final(self)@.contains(key@),
    {
        let hash: u64 = self.hash64(key);
        let r: bool = self.insert_fingerprint(hash, key);
        r
    }

    /// Whether `key` is in the set.
    pub fn contains(&self, key: &[u8]) -> (r: bool)
        requires
            self.wf(),
        ensures
            r == self@.contains(key@),
    {
        let hash: u64 = self.hash64(key);
        self.contains_fingerprint(hash, key)
    }
}

impl<'a> Default for GumSet<'a> {
    /// A set with nothing in it.
    fn default() -> (r: GumSet<'a>)
        ensures
            r.wf(),
            r.fingerprints() == Set::<Fingerprint>::empty(),
            r@ == Set::<Seq<u8>>::empty(),
    {
        GumSet::new()
    }
}

} // verus!

use vstd::prelude::*;

verus! {

/// The address of one attribute or command slot of the device model.
#[derive(Clone, Copy, Debug, PartialEq, Eq, Structural)]
pub struct ItemPath {
    pub endpoint: u16,
    pub cluster: u32,
    pub leaf: u32,
}

#[derive(Clone, Copy, Debug, PartialEq, Eq, Structural)]
pub enum SlotKind {
    Attribute,
    Command,
}

/// One slot of the device model, with the privilege needed to reach it.
#[derive(Clone, Copy, Debug, PartialEq, Eq, Structural)]
pub struct Slot {
    pub path: ItemPath,
    pub kind: SlotKind,
    pub privilege: u8,
}

/// A path filter: `None` in a field is a wildcard.
#[derive(Clone, Copy, Debug, PartialEq, Eq)]
pub struct PathFilter {
    pub endpoint: Option<u16>,
    pub cluster: Option<u32>,
    pub leaf: Option<u32>,
}

pub open spec fn filter_matches(f: PathFilter, p: ItemPath) -> bool {
    &&& (f.endpoint matches Some(e) ==> e == p.endpoint)
    &&& (f.cluster matches Some(c) ==> c == p.cluster)
    &&& (f.leaf matches Some(l) ==> l == p.leaf)
}

impl PathFilter {
    pub fn matches(&self, p: &ItemPath) -> (r: bool)
        ensures
            r == filter_matches(*self, *p),
    {
        let e = match self.endpoint {
            Some(e) => e == p.endpoint,
            None => true,
        };
        let c = match self.cluster {
            Some(c) => c == p.cluster,
            None => true,
        };
        let l = match self.leaf {
            Some(l) => l == p.leaf,
            None => true,
        };
        e && c && l
    }
}

/// One item yielded by a traversal: the slot's path and whether the
/// requester's privilege reaches it.
#[derive(Clone, Copy, Debug, PartialEq, Eq, Structural)]
pub struct Item {
    pub path: ItemPath,
    pub allowed: bool,
}

/// The items that a traversal over `slots` yields, in slot order.
pub open spec fn selected(slots: Seq<Slot>, kind: SlotKind, f: PathFilter, privilege: u8) -> Seq<Item>
    decreases slots.len(),
{
    if slots.len() == 0 {
        Seq::empty()
    } else {
        let prev = selected(slots.drop_last(), kind, f, privilege);
        let s = slots.last();
        if s.kind == kind && filter_matches(f, s.path) {
            prev.push(Item { path: s.path, allowed: privilege >= s.privilege })
        } else {
            prev
        }
    }
}

/// Whether `r` is the first position in `s` that holds path `p` (or the
/// length of `s` when no position does).
pub open spec fn is_first_index(s: Seq<Item>, p: ItemPath, r: int) -> bool {
    &&& 0 <= r <= s.len()
    &&& forall|j: int| 0 <= j < r ==> s[j].path != p
    &&& r < s.len() ==> s[r].path == p
}

pub open spec fn first_index(s: Seq<Item>, p: ItemPath) -> int {
    choose|r: int| is_first_index(s, p, r)
}

/// A traversal restarted from a resume path: the items from the first one
/// at that path on (none if no item has that path).
pub open spec fn resumed(s: Seq<Item>, from: Option<ItemPath>) -> Seq<Item> {
    match from {
        None => s,
        Some(p) => s.skip(first_index(s, p)),
    }
}

pub open spec fn paths_unique(s: Seq<Item>) -> bool {
    forall|i: int, j: int| 0 <= i < s.len() && 0 <= j < s.len() && i != j ==> s[i].path != s[j].path
}

pub proof fn lemma_first_index(s: Seq<Item>, p: ItemPath, r: int)
    requires
        is_first_index(s, p, r),
    ensures
        first_index(s, p) == r,
{
    let q = first_index(s, p);
    assert(is_first_index(s, p, q));
    if q < r {
        assert(s[q].path != p);
    } else if r < q {
        assert(s[r].path != p);
    }
}

/// The device model: its slots in traversal order.
pub struct Node {
    pub slots: Vec<Slot>,
}

impl Node {
    /// No two slots share a path.
    pub open spec fn wf(&self) -> bool {
        forall|i: int, j: int|
            0 <= i < self.slots@.len() && 0 <= j < self.slots@.len() && i != j
                ==> self.slots@[i].path != self.slots@[j].path
    }

    pub open spec fn traversal(&self, kind: SlotKind, f: PathFilter, privilege: u8) -> Seq<Item> {
        selected(self.slots@, kind, f, privilege)
    }

    /// The items of `kind` that `f` matches, in model order, each marked
    /// with whether `privilege` reaches it.
    pub fn traverse(&self, kind: SlotKind, f: &PathFilter, privilege: u8) -> (r: Vec<Item>)
        ensures
            r@ == self.traversal(kind, *f, privilege),
    {
        let mut out: Vec<Item> = Vec::new();
        let mut i: usize = 0;
        while i < self.slots.len()
            invariant
                i <= self.slots@.len(),
                out@ == selected(self.slots@.take(i as int), kind, *f, privilege),
            decreases self.slots@.len() - i,
        {
            let s = self.slots[i];
            assert(self.slots@.take(i as int + 1).drop_last() =~= self.slots@.take(i as int));
            if s.kind == kind && f.matches(&s.path) {
                out.push(Item { path: s.path, allowed: privilege >= s.privilege });
            }
            i = i + 1;
        }
        assert(self.slots@.take(i as int) =~= self.slots@);
        out
    }
}

/// The items of `s` from position `from` on, or all of them when `from` is
/// `None`.
pub fn resume_items(s: &Vec<Item>, from: Option<ItemPath>) -> (r: Vec<Item>)
    ensures
        r@ == resumed(s@, from),
{
    match from {
        None => s.clone(),
        Some(p) => {
            let mut k: usize = 0;
            while k < s.len() && s[k].path != p
                invariant
                    k <= s@.len(),
                    forall|j: int| 0 <= j < k ==> s@[j].path != p,
                decreases s@.len() - k,
            {
                k = k + 1;
            }
            proof {
                lemma_first_index(s@, p, k as int);
            }
            let mut out: Vec<Item> = Vec::new();
            let mut i: usize = k;
            while i < s.len()
                invariant
                    k <= i <= s@.len(),
                    out@ == s@.subrange(k as int, i as int),
                decreases s@.len() - i,
            {
                out.push(s[i]);
                i = i + 1;
            }
            assert(out@ =~= s@.skip(k as int));
            out
        }
    }
}

pub open spec fn has_slot_at(slots: Seq<Slot>, p: ItemPath) -> bool {
    exists|j: int| 0 <= j < slots.len() && #[trigger] slots[j].path == p
}

/// Every item that a traversal yields is at the path of one of the slots,
/// and where slot paths are distinct so are the items' paths.
proof fn lemma_selected_paths(slots: Seq<Slot>, kind: SlotKind, f: PathFilter, privilege: u8)
    requires
        forall|i: int, j: int|
            0 <= i < slots.len() && 0 <= j < slots.len() && i != j ==> slots[i].path != slots[j].path,
    ensures
        paths_unique(selected(slots, kind, f, privilege)),
        forall|i: int| 0 <= i < selected(slots, kind, f, privilege).len() ==> has_slot_at(
            slots,
            #[trigger] selected(slots, kind, f, privilege)[i].path,
        ),
    decreases slots.len(),
{
    if slots.len() > 0 {
        let prev_slots = slots.drop_last();
        let prev = selected(prev_slots, kind, f, privilege);
        lemma_selected_paths(prev_slots, kind, f, privilege);
        let sel = selected(slots, kind, f, privilege);
        let n = slots.len() - 1;
        assert forall|i: int| 0 <= i < prev.len() implies has_slot_at(slots, #[trigger] prev[i].path)
            && prev[i].path != slots[n].path by {
            assert(has_slot_at(prev_slots, prev[i].path));
            let j = choose|j: int| 0 <= j < prev_slots.len() && #[trigger] prev_slots[j].path == prev[i].path;
            assert(slots[j].path == prev[i].path);
        }
        if sel.len() > prev.len() {
            assert(sel[prev.len() as int].path == slots[n].path);
            assert(has_slot_at(slots, sel[prev.len() as int].path));
        }
        assert forall|i: int| 0 <= i < sel.len() implies has_slot_at(slots, #[trigger] sel[i].path) by {
            if i < prev.len() {
                assert(sel[i] == prev[i]);
            }
        }
    }
}

/// Resuming continues exactly where a chunk stopped: a traversal restarted
/// from the path of its `k`-th item yields the items from the `k`-th on, so
/// the first `k` items followed by the next `m` of the resumed traversal are
/// the first `k + m` items of the whole one: none is repeated, skipped or
/// reordered.
pub proof fn lemma_resume_continues(node: &Node, kind: SlotKind, f: PathFilter, privilege: u8, k: int, m: int)
    requires
        node.wf(),
        0 <= k < node.traversal(kind, f, privilege).len(),
        0 <= m <= node.traversal(kind, f, privilege).len() - k,
    ensures
        resumed(node.traversal(kind, f, privilege), Some(node.traversal(kind, f, privilege)[k].path))
            == node.traversal(kind, f, privilege).skip(k),
        node.traversal(kind, f, privilege).take(k) + resumed(
            node.traversal(kind, f, privilege),
            Some(node.traversal(kind, f, privilege)[k].path),
        ).take(m) == node.traversal(kind, f, privilege).take(k + m),
{
    let s = node.traversal(kind, f, privilege);
    lemma_selected_paths(node.slots@, kind, f, privilege);
    let p = s[k].path;
    assert(is_first_index(s, p, k));
    lemma_first_index(s, p, k);
    assert(s.take(k) + s.skip(k).take(m) =~= s.take(k + m));
}

} // verus!

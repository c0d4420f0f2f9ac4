//! The mirrored file-system tree: an arena of nodes with parent indices,
//! child index lists, and aggregated sizes.
//!
//! Acyclicity is tracked through a ghost sequence of ranks: a node's rank is
//! always one more than its parent's, so no chain of parent references can
//! return to its starting point.

use vstd::prelude::*;

verus! {

/// One file or directory in the mirrored tree.
pub struct FileSystemNode {
    pub name: String,
    pub path: String,
    pub is_file: bool,
    pub size: u64,
    pub parent: Option<usize>,
    pub children: Vec<usize>,
    pub to_be_deleted: bool,
}

impl FileSystemNode {
    pub fn new(
        name: String,
        path: String,
        is_file: bool,
        size: u64,
        parent: Option<usize>,
        children: Vec<usize>,
        to_be_deleted: bool,
    ) -> (r: Self)
        ensures
            r.name == name,
            r.path == path,
            r.is_file == is_file,
            r.size == size,
            r.parent == parent,
            r.children == children,
            r.to_be_deleted == to_be_deleted,
    {
        Self { name, path, is_file, size, parent, children, to_be_deleted }
    }

    pub fn get_name(&self) -> (r: &str)
        ensures
            r@ == self.name@,
    {
        self.name.as_str()
    }

    pub fn set_name(&mut self, name: String)
        ensures
            *final(self) == (FileSystemNode { name, ..*old(self) }),
    {
        self.name = name;
    }

    pub fn get_path(&self) -> (r: &str)
        ensures
            r@ == self.path@,
    {
        self.path.as_str()
    }

    pub fn set_path(&mut self, path: String)
        ensures
            *final(self) == (FileSystemNode { path, ..*old(self) }),
    {
        self.path = path;
    }

    pub fn is_file(&self) -> (r: bool)
        ensures
            r == self.is_file,
    {
        self.is_file
    }

    pub fn size(&self) -> (r: u64)
        ensures
            r == self.size,
    {
        self.size
    }

    pub fn set_size(&mut self, size: u64)
        ensures
            *final(self) == (FileSystemNode { size, ..*old(self) }),
    {
        self.size = size;
    }

    pub fn get_parent(&self) -> (r: Option<usize>)
        ensures
            r == self.parent,
    {
        self.parent
    }

    pub fn set_parent(&mut self, parent: Option<usize>)
        ensures
            *final(self) == (FileSystemNode { parent, ..*old(self) }),
    {
        self.parent = parent;
    }

    /// Appends a child reference to this node's ordered child list; the
    /// tree-level operations keep the arena consistent around it.
    pub fn add_child(&mut self, child: usize)
        ensures
            *final(self) == (FileSystemNode { children: final(self).children, ..*old(self) }),
            final(self).children@ == old(self).children@.push(child),
    {
        self.children.push(child);
    }

    pub fn is_marked(&self) -> (r: bool)
        ensures
            r == self.to_be_deleted,
    {
        self.to_be_deleted
    }

    pub fn children_len(&self) -> (r: usize)
        ensures
            r == self.children@.len(),
    {
        self.children.len()
    }

    pub fn get_child(&self, index: usize) -> (r: Option<usize>)
        ensures
            index < self.children@.len() ==> r == Some(self.children@[index as int]),
            index >= self.children@.len() ==> r is None,
    {
        if index >= self.children.len() {
            return None;
        }
        Some(self.children[index])
    }

    pub fn delete(&mut self)
        ensures
            *final(self) == (FileSystemNode { to_be_deleted: true, ..*old(self) }),
    {
        self.to_be_deleted = true;
    }

    pub fn undelete(&mut self)
        ensures
            *final(self) == (FileSystemNode { to_be_deleted: false, ..*old(self) }),
    {
        self.to_be_deleted = false;
    }
}

/// The arena holding every node of one mirrored tree. Index 0 is the root.
pub struct FsTree {
    pub nodes: Vec<FileSystemNode>,
    pub ranks: Ghost<Seq<nat>>,
}

impl FsTree {
    pub open spec fn n(&self) -> int {
        self.nodes@.len() as int
    }

    pub open spec fn node(&self, i: int) -> FileSystemNode {
        self.nodes@[i]
    }

    pub open spec fn rank(&self, i: int) -> nat {
        self.ranks@[i]
    }

    /// The local consistency of one node: its parent reference names a
    /// valid node one rank below it, and its children point back at it. The
    /// parent reference need not be listed among that parent's children: a
    /// node unlinked from its parent keeps the back-reference, exactly as a
    /// stale weak reference would linger.
    pub open spec fn wf_at(&self, i: int) -> bool {
        let nd = self.nodes@[i];
        &&& match nd.parent {
            Some(p) => {
                &&& (p as int) < self.n()
                &&& self.ranks@[i] == self.ranks@[p as int] + 1
            },
            None => true,
        }
        &&& forall|j: int|
            0 <= j < nd.children@.len() ==> (#[trigger] nd.children@[j]) < self.nodes@.len()
                && self.nodes@[nd.children@[j] as int].parent == Some(i as usize)
        &&& forall|j: int, k: int|
            0 <= j < k < nd.children@.len() ==> nd.children@[j] != nd.children@[k]
    }

    /// Well-formedness of the whole arena: a root at index 0 and local
    /// consistency everywhere.
    pub open spec fn wf(&self) -> bool {
        &&& self.nodes@.len() >= 1
        &&& self.ranks@.len() == self.nodes@.len()
        &&& self.nodes@[0].parent is None
        &&& forall|i: int| 0 <= i < self.n() ==> self.wf_at(i)
    }

    /// Whether `x` lies on the chain of parent references starting at `d`
    /// (including `d` itself); under `wf` this says `d` is in `x`'s subtree.
    pub open spec fn in_subtree(&self, x: int, d: int) -> bool
        decreases self.ranks@[d],
    {
        if x == d {
            true
        } else {
            match self.nodes@[d].parent {
                Some(p) => self.ranks@[p as int] < self.ranks@[d] && self.in_subtree(x, p as int),
                None => false,
            }
        }
    }

    /// The node reached from `d` by following `k` parent references.
    pub open spec fn kth_ancestor(&self, d: int, k: nat) -> Option<int>
        decreases k,
    {
        if k == 0 {
            Some(d)
        } else {
            match self.nodes@[d].parent {
                Some(p) => self.kth_ancestor(p as int, (k - 1) as nat),
                None => None,
            }
        }
    }

    pub fn len(&self) -> (r: usize)
        ensures
            r == self.nodes@.len(),
    {
        self.nodes.len()
    }
}

/// Removing one entry of a duplicate-free sequence keeps exactly the other
/// entries.
pub proof fn lemma_remove_unique(s: Seq<usize>, j: int)
    requires
        0 <= j < s.len(),
        forall|a: int, b: int| 0 <= a < b < s.len() ==> s[a] != s[b],
    ensures
        forall|a: int, b: int|
            0 <= a < b < s.remove(j).len() ==> s.remove(j)[a] != s.remove(j)[b],
        forall|c: usize| s.remove(j).contains(c) <==> (s.contains(c) && c != s[j]),
{
    let r = s.remove(j);
    assert forall|c: usize| r.contains(c) implies (s.contains(c) && c != s[j]) by {
        let a = choose|a: int| 0 <= a < r.len() && r[a] == c;
        if a < j {
            assert(s[a] == c);
        } else {
            assert(s[a + 1] == c);
        }
    }
    assert forall|c: usize| s.contains(c) && c != s[j] implies r.contains(c) by {
        let a = choose|a: int| 0 <= a < s.len() && s[a] == c;
        if a < j {
            assert(r[a] == c);
        } else {
            assert(r[a - 1] == c);
        }
    }
}

impl FsTree {
    /// Appends a fresh node as the last child of `p` and returns its index.
    /// The new node carries no children and no pending deletion mark.
    pub fn new_child(
        &mut self,
        p: usize,
        name: String,
        path: String,
        is_file: bool,
        size: u64,
    ) -> (c: usize)
        requires
            old(self).wf(),
            p < old(self).nodes@.len(),
        ensures
            final(self).wf(),
            c == old(self).nodes@.len(),
            final(self).nodes@.len() == old(self).nodes@.len() + 1,
            final(self).nodes@[c as int] == (FileSystemNode {
                name,
                path,
                is_file,
                size,
                parent: Some(p),
                children: final(self).nodes@[c as int].children,
                to_be_deleted: false,
            }),
            final(self).nodes@[c as int].children@ == Seq::<usize>::empty(),
            final(self).nodes@[p as int] == (FileSystemNode {
                children: final(self).nodes@[p as int].children,
                ..old(self).nodes@[p as int]
            }),
            final(self).nodes@[p as int].children@ == old(self).nodes@[p as int].children@.push(c),
            forall|i: int|
                0 <= i < old(self).nodes@.len() && i != p ==> final(self).nodes@[i] == old(
                    self,
                ).nodes@[i],
            final(self).ranks@ == old(self).ranks@.push(
                (old(self).ranks@[p as int] + 1) as nat,
            ),
            final(self).in_subtree(p as int, c as int),
            forall|x: int, d: int|
                0 <= d < old(self).nodes@.len() ==> (final(self).in_subtree(x, d) <==> old(
                    self,
                ).in_subtree(x, d)),
    {
        let c = self.nodes.len();
        let node = FileSystemNode {
            name,
            path,
            is_file,
            size,
            parent: Some(p),
            children: Vec::new(),
            to_be_deleted: false,
        };
        self.nodes.push(node);
        self.nodes[p].children.push(c);
        proof {
            self.ranks@ = old(self).ranks@.push((old(self).ranks@[p as int] + 1) as nat);
        }
        proof {
            let oldt = old(self);
            let och = oldt.nodes@[p as int].children@;
            assert forall|i: int| 0 <= i < self.n() implies self.wf_at(i) by {
                if i < oldt.n() {
                    assert(oldt.wf_at(i));
                    let nd = self.nodes@[i];
                    let ond = oldt.nodes@[i];
                    assert(nd.parent == ond.parent);
                    if i == p {
                        let ch = self.nodes@[i].children@;
                        assert(ch == och.push(c));
                        assert forall|j: int| 0 <= j < ch.len() implies (#[trigger] ch[j])
                            < self.nodes@.len() && self.nodes@[ch[j] as int].parent == Some(
                            i as usize,
                        ) by {
                            if j < och.len() {
                                assert(ch[j] == och[j]);
                            } else {
                                assert(ch[j] == c);
                            }
                        }
                        assert forall|j: int, k: int| 0 <= j < k < ch.len() implies ch[j]
                            != ch[k] by {
                            if k == och.len() as int {
                                assert(ch[j] == och[j]);
                                assert(och[j] < c as usize);
                            }
                        }
                    } else {
                        assert(self.nodes@[i] == oldt.nodes@[i]);
                        let ch = self.nodes@[i].children@;
                        assert forall|j: int| 0 <= j < ch.len() implies (#[trigger] ch[j])
                            < self.nodes@.len() && self.nodes@[ch[j] as int].parent == Some(
                            i as usize,
                        ) by {
                            assert(ond.children@[j] == ch[j]);
                        }
                    }
                } else {
                    assert(i == c);
                    let ch = self.nodes@[p as int].children@;
                    assert(ch[och.len() as int] == c);
                    assert(ch.contains(c));
                }
            }
            lemma_in_subtree_unchanged(oldt, self, c as int);
            assert(self.in_subtree(p as int, p as int));
            assert(self.in_subtree(p as int, c as int));
        }
        c
    }
}

/// Whether the two arenas give the same parent and rank to every node below
/// `bound`.
pub open spec fn chains_agree(t1: &FsTree, t2: &FsTree, bound: int) -> bool {
    forall|i: int|
        0 <= i < bound ==> t2.nodes@[i].parent == t1.nodes@[i].parent && t2.ranks@[i]
            == t1.ranks@[i]
}

/// Two arenas that agree on the parents and ranks of every node below `bound`
/// agree on subtree membership for chains that stay below `bound`.
proof fn lemma_in_subtree_unchanged(t1: &FsTree, t2: &FsTree, bound: int)
    requires
        t1.wf(),
        bound == t1.nodes@.len(),
        bound <= t2.nodes@.len(),
        chains_agree(t1, t2, bound),
    ensures
        forall|x: int, d: int| 0 <= d < bound ==> (t2.in_subtree(x, d) <==> t1.in_subtree(x, d)),
{
    assert forall|x: int, d: int| 0 <= d < bound implies (t2.in_subtree(x, d) <==> t1.in_subtree(
        x,
        d,
    )) by {
        lemma_in_subtree_unchanged_one(t1, t2, bound, x, d);
    }
}

proof fn lemma_in_subtree_unchanged_one(t1: &FsTree, t2: &FsTree, bound: int, x: int, d: int)
    requires
        t1.wf(),
        bound == t1.nodes@.len(),
        bound <= t2.nodes@.len(),
        chains_agree(t1, t2, bound),
        0 <= d < bound,
    ensures
        t2.in_subtree(x, d) <==> t1.in_subtree(x, d),
    decreases t1.ranks@[d],
{
    if x != d {
        assert(t1.wf_at(d));
        match t1.nodes@[d].parent {
            Some(p) => {
                lemma_in_subtree_unchanged_one(t1, t2, bound, x, p as int);
            },
            None => {},
        }
    }
}

/// How a tree looks after node `x` has been unlinked from its parent `p`:
/// `x` leaves `p`'s child list and its size leaves `p`'s aggregate (stopping
/// at zero). Nothing else changes — in particular `x`'s own record keeps its
/// parent back-reference, which simply goes stale, as a lingering weak
/// reference would. A node not actually listed by its parent is left alone.
pub open spec fn detach_post(t0: FsTree, t1: FsTree, x: int) -> bool {
    let p = t0.nodes@[x].parent->0 as int;
    let oldp = t0.nodes@[p];
    let newp = t1.nodes@[p];
    if oldp.children@.contains(x as usize) {
        &&& t1.nodes@.len() == t0.nodes@.len()
        &&& t1.ranks == t0.ranks
        &&& newp == (FileSystemNode { size: newp.size, children: newp.children, ..oldp })
        &&& newp.size == (if oldp.size >= t0.nodes@[x].size {
            (oldp.size - t0.nodes@[x].size) as u64
        } else {
            0u64
        })
        &&& exists|j: int|
            0 <= j < oldp.children@.len() && oldp.children@[j] == x as usize && newp.children@
                == oldp.children@.remove(j)
        &&& forall|c: usize|
            newp.children@.contains(c) <==> (oldp.children@.contains(c) && c != x as usize)
        &&& forall|i: int| 0 <= i < t0.nodes@.len() && i != p ==> t1.nodes@[i] == t0.nodes@[i]
    } else {
        t1 == t0
    }
}

/// Whether `x` appears in no child list of the arena: the state of a node
/// that was unlinked from its parent (or never linked), whatever its own
/// back-reference still says.
pub open spec fn unlisted(t: FsTree, x: usize) -> bool {
    forall|i: int, j: int|
        0 <= i < t.nodes@.len() && 0 <= j < t.nodes@[i].children@.len() ==> (
        #[trigger] t.nodes@[i].children@[j]) != x
}

/// In a well-formed arena, a node its own parent does not list appears in
/// no child list at all: every list pointing at it would name that parent.
pub proof fn lemma_wf_unlisted(t: &FsTree, x: usize, p: usize)
    requires
        t.wf(),
        (x as int) < t.nodes@.len(),
        t.nodes@[x as int].parent == Some(p),
        (p as int) < t.nodes@.len(),
        !t.nodes@[p as int].children@.contains(x),
    ensures
        unlisted(*t, x),
{
    assert(t.nodes.len() == t.nodes@.len());
    assert forall|i: int, j: int|
        0 <= i < t.nodes@.len() && 0 <= j < t.nodes@[i].children@.len() implies (
    #[trigger] t.nodes@[i].children@[j]) != x by {
        assert(t.wf_at(i));
        if t.nodes@[i].children@[j] == x {
            assert(t.nodes@[x as int].parent == Some(i as usize));
            assert(i == p as int);
            assert(t.nodes@[p as int].children@.contains(x));
        }
    }
}

impl FsTree {
    /// Unlinks `x` from its parent, per `detach_post`; when the parent does
    /// not list `x` (already unlinked), nothing changes. Afterwards no child
    /// list names `x`.
    pub fn detach(&mut self, x: usize)
        requires
            old(self).wf(),
            x < old(self).nodes@.len(),
            old(self).nodes@[x as int].parent is Some,
        ensures
            final(self).wf(),
            detach_post(*old(self), *final(self), x as int),
            unlisted(*final(self), x),
            final(self).nodes@[x as int] == old(self).nodes@[x as int],
    {
        let p = self.nodes[x].parent.unwrap();
        let xsize = self.nodes[x].size;
        proof {
            assert(old(self).wf_at(x as int));
        }
        let mut j: usize = 0;
        while j < self.nodes[p].children.len() && self.nodes[p].children[j] != x
            invariant
                *self == *old(self),
                old(self).wf(),
                p == old(self).nodes@[x as int].parent->0,
                (p as int) < old(self).nodes@.len(),
                x < old(self).nodes@.len(),
                j <= self.nodes@[p as int].children@.len(),
                forall|k: int| 0 <= k < j ==> self.nodes@[p as int].children@[k] != x,
            decreases self.nodes@[p as int].children@.len() - j,
        {
            j = j + 1;
        }
        let ghost och = old(self).nodes@[p as int].children@;
        if j == self.nodes[p].children.len() {
            // `x` is not listed by its parent: an already unlinked node.
            proof {
                assert(!och.contains(x));
                lemma_wf_unlisted(old(self), x, p);
            }
            return ;
        }
        proof {
            assert(och.contains(x));
        }
        let _ = self.nodes[p].children.remove(j);
        let psize = self.nodes[p].size;
        let newsize = if psize >= xsize {
            psize - xsize
        } else {
            0
        };
        self.nodes[p].size = newsize;
        proof {
            let oldt = old(self);
            let pi = p as int;
            assert(oldt.nodes.len() == oldt.nodes@.len());
            assert(oldt.wf_at(pi));
            lemma_remove_unique(och, j as int);
            assert forall|i: int| 0 <= i < self.n() implies self.wf_at(i) by {
                assert(oldt.wf_at(i));
                let nd = self.nodes@[i];
                let ond = oldt.nodes@[i];
                assert(nd.parent == ond.parent);
                let ch = nd.children@;
                assert forall|jj: int| 0 <= jj < ch.len() implies (#[trigger] ch[jj])
                    < self.nodes@.len() && self.nodes@[ch[jj] as int].parent == Some(i as usize) by {
                    if i == pi {
                        assert(ch.contains(ch[jj]));
                        assert(och.contains(ch[jj]) && ch[jj] != x);
                    } else {
                        assert(ond.children@[jj] == ch[jj]);
                    }
                }
            }
            assert forall|i: int, jj: int|
                0 <= i < self.nodes@.len() && 0 <= jj < self.nodes@[i].children@.len() implies (
            #[trigger] self.nodes@[i].children@[jj]) != x by {
                assert(self.wf_at(i));
                if self.nodes@[i].children@[jj] == x {
                    assert(self.nodes@[x as int].parent == Some(i as usize));
                    assert(i == pi);
                    assert(self.nodes@[pi].children@.contains(x));
                }
            }
        }
    }

    /// Removes the first child of `p` whose full path equals `path`, as the
    /// staged-deletion and move flows do; no effect when no path matches.
    pub fn remove_child(&mut self, p: usize, path: &String)
        requires
            old(self).wf(),
            p < old(self).nodes@.len(),
        ensures
            final(self).wf(),
            match first_match_path(*old(self), old(self).nodes@[p as int].children@, path@) {
                Some(c) => detach_post(*old(self), *final(self), c as int),
                None => *final(self) == *old(self),
            },
    {
        let mut j: usize = 0;
        let ghost cs = self.nodes@[p as int].children@;
        proof {
            assert(cs.skip(0) =~= cs);
        }
        while j < self.nodes[p].children.len()
            invariant
                *self == *old(self),
                old(self).wf(),
                (p as int) < old(self).nodes@.len(),
                cs == self.nodes@[p as int].children@,
                j <= cs.len(),
                first_match_path(*old(self), cs, path@) == first_match_path(
                    *old(self),
                    cs.skip(j as int),
                    path@,
                ),
            decreases cs.len() - j,
        {
            proof {
                assert(old(self).wf_at(p as int));
                assert(cs.skip(j as int)[0] == cs[j as int]);
            }
            let c = self.nodes[p].children[j];
            if path_eq(&self.nodes[c].path, path) {
                proof {
                    assert(first_match_path(*old(self), cs.skip(j as int), path@) == Some(c));
                    assert(old(self).nodes@[c as int].parent == Some(p));
                }
                self.detach(c);
                return ;
            }
            proof {
                assert(cs.skip(j as int).skip(1) =~= cs.skip(j + 1));
            }
            j = j + 1;
        }
        proof {
            assert(cs.skip(j as int) =~= Seq::<usize>::empty());
            assert(first_match_path(*old(self), cs, path@) is None);
        }
    }
}

/// How a tree looks after an unlisted node `x` is linked under `p`: `x`
/// gains `p` as its parent, joins the end of `p`'s child list, its size
/// joins `p`'s aggregate (stopping at `u64::MAX`), and nothing else
/// changes.
pub open spec fn attach_post(t0: FsTree, t1: FsTree, x: int, p: int) -> bool {
    let oldp = t0.nodes@[p];
    let newp = t1.nodes@[p];
    &&& t1.nodes@.len() == t0.nodes@.len()
    &&& t1.nodes@[x] == (FileSystemNode { parent: Some(p as usize), ..t0.nodes@[x] })
    &&& newp == (FileSystemNode { size: newp.size, children: newp.children, ..oldp })
    &&& newp.children@ == oldp.children@.push(x as usize)
    &&& newp.size == (if oldp.size + t0.nodes@[x].size <= u64::MAX {
        (oldp.size + t0.nodes@[x].size) as u64
    } else {
        u64::MAX
    })
    &&& forall|i: int| 0 <= i < t0.nodes@.len() && i != x && i != p ==> t1.nodes@[i] == t0.nodes@[i]
}

impl FsTree {
    /// Links the detached node `x` under `p` without touching any aggregate
    /// size; the tree-construction pass aggregates sizes separately.
    pub fn link_child(&mut self, x: usize, p: usize)
        requires
            old(self).wf(),
            x < old(self).nodes@.len(),
            p < old(self).nodes@.len(),
            unlisted(*old(self), x),
            x != 0,
            !old(self).in_subtree(x as int, p as int),
        ensures
            final(self).wf(),
            final(self).nodes@.len() == old(self).nodes@.len(),
            final(self).nodes@[x as int] == (FileSystemNode {
                parent: Some(p),
                ..old(self).nodes@[x as int]
            }),
            final(self).nodes@[p as int] == (FileSystemNode {
                children: final(self).nodes@[p as int].children,
                ..old(self).nodes@[p as int]
            }),
            final(self).nodes@[p as int].children@ == old(self).nodes@[p as int].children@.push(x),
            forall|i: int|
                0 <= i < old(self).nodes@.len() && i != x && i != p ==> final(self).nodes@[i]
                    == old(self).nodes@[i],
    {
        self.nodes[p].children.push(x);
        self.nodes[x].parent = Some(p);
        proof {
            let ot = old(self);
            let xi = x as int;
            let pi = p as int;
            let n = ot.nodes@.len() as int;
            self.ranks@ = Seq::new(
                ot.ranks@.len(),
                |i: int|
                    if ot.in_subtree(xi, i) {
                        (ot.ranks@[i] + ot.ranks@[pi] + 1 - ot.ranks@[xi]) as nat
                    } else {
                        ot.ranks@[i]
                    },
            );
            assert(ot.nodes.len() == ot.nodes@.len());
            assert(ot.wf_at(xi));
            assert(ot.wf_at(pi));
            assert(!ot.in_subtree(xi, pi));
            assert(x != p);
            let och = ot.nodes@[pi].children@;
            assert forall|i: int| 0 <= i < self.n() implies self.wf_at(i) by {
                assert(ot.wf_at(i));
                let nd = self.nodes@[i];
                let ond = ot.nodes@[i];
                // The parent-side conditions.
                if i == xi {
                    assert(self.nodes@[pi].children@[och.len() as int] == x);
                    assert(self.nodes@[pi].children@.contains(x));
                    assert(ot.in_subtree(xi, xi));
                    lemma_subtree_rank(ot, xi, xi);
                    assert(self.ranks@[xi] == ot.ranks@[pi] + 1);
                    assert(self.ranks@[pi] == ot.ranks@[pi]);
                } else {
                    assert(nd.parent == ond.parent);
                    match ond.parent {
                        Some(q) => {
                            let qi = q as int;
                            // Ranks stay one apart whether or not the chain
                            // through `q` was shifted.
                            if ot.in_subtree(xi, i) {
                                assert(ot.in_subtree(xi, qi));
                                lemma_subtree_rank(ot, xi, i);
                                lemma_subtree_rank(ot, xi, qi);
                                assert(self.ranks@[i] == ot.ranks@[i] + ot.ranks@[pi] + 1
                                    - ot.ranks@[xi]);
                                assert(self.ranks@[qi] == ot.ranks@[qi] + ot.ranks@[pi] + 1
                                    - ot.ranks@[xi]);
                            } else {
                                assert(!ot.in_subtree(xi, qi));
                            }
                        },
                        None => {},
                    }
                }
                // The child-side conditions.
                let ch = nd.children@;
                if i == pi {
                    assert(ch == och.push(x));
                    assert forall|jj: int| 0 <= jj < ch.len() implies (#[trigger] ch[jj])
                        < self.nodes@.len() && self.nodes@[ch[jj] as int].parent == Some(
                        i as usize,
                    ) by {
                        if jj < och.len() {
                            assert(ch[jj] == och[jj]);
                            assert(ot.nodes@[och[jj] as int].parent == Some(p));
                            assert(och[jj] != x);
                        } else {
                            assert(ch[jj] == x);
                        }
                    }
                    assert forall|jj: int, kk: int| 0 <= jj < kk < ch.len() implies ch[jj]
                        != ch[kk] by {
                        if kk == och.len() as int {
                            assert(ch[jj] == och[jj]);
                            assert(ot.nodes@[och[jj] as int].parent == Some(p));
                        }
                    }
                } else {
                    assert(ch == ond.children@);
                    assert forall|jj: int| 0 <= jj < ch.len() implies (#[trigger] ch[jj])
                        < self.nodes@.len() && self.nodes@[ch[jj] as int].parent == Some(
                        i as usize,
                    ) by {
                        assert(ond.children@[jj] == ch[jj]);
                        assert(ot.nodes@[ch[jj] as int].parent == Some(i as usize));
                        assert(ch[jj] != x);
                    }
                }
            }
        }
    }

    /// Links the detached node `x` under `p`, per `attach_post`. `p` must not
    /// lie inside `x`'s subtree, which would close a cycle.
    pub fn attach(&mut self, x: usize, p: usize)
        requires
            old(self).wf(),
            x < old(self).nodes@.len(),
            p < old(self).nodes@.len(),
            unlisted(*old(self), x),
            x != 0,
            !old(self).in_subtree(x as int, p as int),
        ensures
            final(self).wf(),
            attach_post(*old(self), *final(self), x as int, p as int),
    {
        let xsize = self.nodes[x].size;
        let psize = self.nodes[p].size;
        self.link_child(x, p);
        let ghost mid = *self;
        let newsize = match psize.checked_add(xsize) {
            Some(s) => s,
            None => u64::MAX,
        };
        self.nodes[p].size = newsize;
        proof {
            lemma_wf_same_structure(&mid, self);
        }
    }
}

/// Well-formedness does not depend on names, paths, sizes, or deletion
/// marks: a tree with the same parents, children, and ranks as a
/// well-formed one is well-formed.
pub proof fn lemma_wf_same_structure(t1: &FsTree, t2: &FsTree)
    requires
        t1.wf(),
        t2.nodes@.len() == t1.nodes@.len(),
        t2.ranks == t1.ranks,
        forall|i: int|
            0 <= i < t1.nodes@.len() ==> t2.nodes@[i].parent == t1.nodes@[i].parent
                && t2.nodes@[i].children == t1.nodes@[i].children,
    ensures
        t2.wf(),
{
    assert forall|i: int| 0 <= i < t2.n() implies t2.wf_at(i) by {
        assert(t1.wf_at(i));
        let ch = t2.nodes@[i].children@;
        assert(ch == t1.nodes@[i].children@);
        assert forall|j: int| 0 <= j < ch.len() implies (#[trigger] ch[j]) < t2.nodes@.len()
            && t2.nodes@[ch[j] as int].parent == Some(i as usize) by {
            assert(t1.nodes@[i].children@[j] == ch[j]);
        }
    }
}

/// The first index in `cs` naming a node whose path is `path`.
pub open spec fn first_match_path(t: FsTree, cs: Seq<usize>, path: Seq<char>) -> Option<usize>
    decreases cs.len(),
{
    if cs.len() == 0 {
        None
    } else if t.nodes@[cs[0] as int].path@ == path {
        Some(cs[0])
    } else {
        first_match_path(t, cs.skip(1), path)
    }
}

/// String equality by view.
pub fn path_eq(a: &String, b: &String) -> (r: bool)
    ensures
        r == (a@ == b@),
{
    a.eq(b)
}

/// Unlinks `node` from its parent if it has one; the root and already
/// detached nodes are left alone.
pub fn disown(t: &mut FsTree, node: usize)
    requires
        old(t).wf(),
        node < old(t).nodes@.len(),
    ensures
        final(t).wf(),
        match old(t).nodes@[node as int].parent {
            Some(_) => detach_post(*old(t), *final(t), node as int),
            None => *final(t) == *old(t),
        },
{
    let has_parent = match t.nodes[node].parent {
        Some(_) => true,
        None => false,
    };
    if has_parent {
        t.detach(node);
    }
}

/// Every ancestor of a valid node is valid and has a rank no larger than the
/// node's own.
pub proof fn lemma_subtree_rank(t: &FsTree, x: int, d: int)
    requires
        t.wf(),
        0 <= d < t.n(),
        t.in_subtree(x, d),
    ensures
        0 <= x < t.n(),
        t.rank(x) <= t.rank(d),
    decreases t.ranks@[d],
{
    if x != d {
        let p = t.nodes@[d].parent->0 as int;
        assert(t.wf_at(d));
        lemma_subtree_rank(t, x, p);
    }
}

/// A chain of parent references ends at exactly one unparented node: two
/// unparented ancestors of the same node coincide.
pub proof fn lemma_chain_end_unique(t: &FsTree, x: int, r: int, d: int)
    requires
        t.wf(),
        0 <= d < t.n(),
        t.in_subtree(x, d),
        t.in_subtree(r, d),
        0 <= x < t.n() && t.nodes@[x].parent is None,
        0 <= r < t.n() && t.nodes@[r].parent is None,
    ensures
        x == r,
    decreases t.ranks@[d],
{
    if x == d {
        if r != d {
            assert(t.nodes@[d].parent is Some);
        }
    } else if r == d {
        assert(t.nodes@[d].parent is Some);
    } else {
        let p = t.nodes@[d].parent->0 as int;
        assert(t.wf_at(d));
        lemma_chain_end_unique(t, x, r, p);
    }
}

/// Following `k` parent references from `d` lowers the rank by exactly `k`.
pub proof fn lemma_ancestor_rank(t: &FsTree, d: int, k: nat)
    requires
        t.wf(),
        0 <= d < t.n(),
        t.kth_ancestor(d, k) is Some,
    ensures
        0 <= t.kth_ancestor(d, k)->0 < t.n(),
        t.rank(t.kth_ancestor(d, k)->0) + k == t.rank(d),
    decreases k,
{
    if k > 0 {
        let p = t.nodes@[d].parent->0 as int;
        assert(t.wf_at(d));
        lemma_ancestor_rank(t, p, (k - 1) as nat);
    }
}

/// No node is reachable from itself by one or more parent steps: the parent
/// relation is acyclic.
pub proof fn lemma_parent_acyclic(t: &FsTree, d: int, k: nat)
    requires
        t.wf(),
        0 <= d < t.n(),
        k > 0,
    ensures
        t.kth_ancestor(d, k) != Some(d),
{
    if t.kth_ancestor(d, k) == Some(d) {
        lemma_ancestor_rank(t, d, k);
    }
}

/// The tree is single-rooted: the only unparented node reachable by parent
/// steps from a node under the root is the root itself.
pub proof fn lemma_single_root(t: &FsTree, r: int, d: int)
    requires
        t.wf(),
        0 <= d < t.n(),
        t.in_subtree(0, d),
        t.in_subtree(r, d),
        0 <= r < t.n() && t.nodes@[r].parent is None,
    ensures
        r == 0,
{
    lemma_chain_end_unique(t, r, 0, d);
}

} // verus!

verus! {

/// The first index in `cs` naming a node whose name is `name`.
pub open spec fn first_match_name(t: FsTree, cs: Seq<usize>, name: Seq<char>) -> Option<usize>
    decreases cs.len(),
{
    if cs.len() == 0 {
        None
    } else if t.nodes@[cs[0] as int].name@ == name {
        Some(cs[0])
    } else {
        first_match_name(t, cs.skip(1), name)
    }
}

/// Resolving a sequence of child names one at a time, starting at `i`.
pub open spec fn nav(t: FsTree, i: usize, comps: Seq<Seq<char>>) -> Option<usize>
    decreases comps.len(),
{
    if comps.len() == 0 {
        Some(i)
    } else {
        match first_match_name(t, t.nodes@[i as int].children@, comps[0]) {
            Some(c) => nav(t, c, comps.skip(1)),
            None => None,
        }
    }
}

impl FsTree {
    /// Looks up a direct child of `i` by name, returning the first match in
    /// child order, as the navigation commands do.
    pub fn go_to(&self, i: usize, name: &String) -> (r: Option<usize>)
        requires
            self.wf(),
            i < self.nodes@.len(),
        ensures
            r == first_match_name(*self, self.nodes@[i as int].children@, name@),
            r is Some ==> (r->0 as int) < self.n() && self.nodes@[r->0 as int].parent == Some(i)
                && self.nodes@[r->0 as int].name@ == name@,
    {
        let ghost cs = self.nodes@[i as int].children@;
        proof {
            assert(cs.skip(0) =~= cs);
            assert(self.wf_at(i as int));
        }
        let mut j: usize = 0;
        while j < self.nodes[i].children.len()
            invariant
                self.wf(),
                i < self.nodes@.len(),
                cs == self.nodes@[i as int].children@,
                j <= cs.len(),
                first_match_name(*self, cs, name@) == first_match_name(
                    *self,
                    cs.skip(j as int),
                    name@,
                ),
            decreases cs.len() - j,
        {
            proof {
                assert(self.wf_at(i as int));
                assert(cs.skip(j as int)[0] == cs[j as int]);
            }
            let c = self.nodes[i].children[j];
            if path_eq(&self.nodes[c].name, name) {
                proof {
                    assert(first_match_name(*self, cs.skip(j as int), name@) == Some(c));
                }
                return Some(c);
            }
            proof {
                assert(cs.skip(j as int).skip(1) =~= cs.skip(j + 1));
            }
            j = j + 1;
        }
        proof {
            assert(cs.skip(j as int) =~= Seq::<usize>::empty());
        }
        None
    }

    /// Resolves a sequence of child names starting at `start`, failing as
    /// soon as one component matches no child.
    pub fn navigate(&self, start: usize, comps: &Vec<String>) -> (r: Option<usize>)
        requires
            self.wf(),
            start < self.nodes@.len(),
        ensures
            r == nav(*self, start, comps.deep_view()),
            r is Some ==> (r->0 as int) < self.n(),
    {
        let ghost full = comps.deep_view();
        proof {
            assert(full.skip(0) =~= full);
        }
        let mut cur = start;
        let mut k: usize = 0;
        while k < comps.len()
            invariant
                self.wf(),
                cur < self.nodes@.len(),
                k <= comps.len(),
                full == comps.deep_view(),
                full.len() == comps.len(),
                nav(*self, start, full) == nav(*self, cur, full.skip(k as int)),
            decreases comps.len() - k,
        {
            proof {
                assert(full.skip(k as int)[0] == full[k as int]);
                assert(full[k as int] == comps@[k as int]@);
            }
            match self.go_to(cur, &comps[k]) {
                Some(c) => {
                    proof {
                        assert(full.skip(k as int).skip(1) =~= full.skip(k + 1));
                    }
                    cur = c;
                },
                None => {
                    return None;
                },
            }
            k = k + 1;
        }
        proof {
            assert(full.skip(k as int) =~= Seq::<Seq<char>>::empty());
        }
        Some(cur)
    }
}

} // verus!


verus! {

/// Whether `i` lies in `node`'s subtree: `node` is on `i`'s chain of parent
/// references. Decided by walking that chain; each step descends one rank.
impl FsTree {
    pub fn is_under(&self, node: usize, i: usize) -> (r: bool)
        requires
            self.wf(),
            node < self.nodes@.len(),
            i < self.nodes@.len(),
        ensures
            r == self.in_subtree(node as int, i as int),
    {
        let mut cur = i;
        loop
            invariant
                self.wf(),
                node < self.nodes@.len(),
                cur < self.nodes@.len(),
                self.in_subtree(node as int, i as int) == self.in_subtree(
                    node as int,
                    cur as int,
                ),
            decreases self.ranks@[cur as int],
        {
            if cur == node {
                return true;
            }
            proof {
                assert(self.wf_at(cur as int));
            }
            match self.nodes[cur].get_parent() {
                Some(p) => {
                    cur = p;
                },
                None => {
                    return false;
                },
            }
        }
    }
}

/// Releases all of `node`'s descendants: every node of the subtree,
/// including `node` itself, ends with an empty child list. Nothing else
/// changes — sizes, marks, paths, and all parent references (now stale
/// inside the subtree) stay as they were, and nodes outside the subtree are
/// untouched.
pub fn prune(t: &mut FsTree, node: usize)
    requires
        old(t).wf(),
        node < old(t).nodes@.len(),
    ensures
        final(t).wf(),
        final(t).nodes@.len() == old(t).nodes@.len(),
        final(t).ranks == old(t).ranks,
        forall|i: int|
            0 <= i < old(t).nodes@.len() && !old(t).in_subtree(node as int, i)
                ==> final(t).nodes@[i] == old(t).nodes@[i],
        forall|i: int|
            0 <= i < old(t).nodes@.len() && old(t).in_subtree(node as int, i)
                ==> final(t).nodes@[i] == (FileSystemNode {
                children: final(t).nodes@[i].children,
                ..old(t).nodes@[i]
            }) && final(t).nodes@[i].children@ == Seq::<usize>::empty(),
{
    let ghost ot = *old(t);
    let ghost ni = node as int;
    let n = t.nodes.len();
    let mut i: usize = 0;
    while i < n
        invariant
            ot.wf(),
            ni == node,
            ni < ot.nodes@.len(),
            n == ot.nodes@.len(),
            i <= n,
            t.wf(),
            t.nodes@.len() == ot.nodes@.len(),
            t.ranks == ot.ranks,
            forall|k: int|
                0 <= k < ot.nodes@.len() ==> t.nodes@[k].parent == ot.nodes@[k].parent,
            forall|k: int|
                0 <= k < ot.nodes@.len() && !ot.in_subtree(ni, k) ==> t.nodes@[k]
                    == ot.nodes@[k],
            forall|k: int|
                0 <= k < i && ot.in_subtree(ni, k) ==> t.nodes@[k] == (FileSystemNode {
                    children: t.nodes@[k].children,
                    ..ot.nodes@[k]
                }) && t.nodes@[k].children@ == Seq::<usize>::empty(),
            forall|k: int|
                i <= k < ot.nodes@.len() ==> t.nodes@[k] == ot.nodes@[k],
        decreases n - i,
    {
        proof {
            lemma_in_subtree_unchanged(&ot, t, ot.nodes@.len() as int);
        }
        if t.is_under(node, i) {
            let ghost before = *t;
            t.nodes[i].children.clear();
            proof {
                lemma_prune_clear_wf(&before, t, i as int);
            }
        }
        i = i + 1;
    }
}

/// Emptying one child list keeps the arena well formed: the parent-side
/// clauses read nothing from child lists, and a shorter list constrains
/// less.
proof fn lemma_prune_clear_wf(t1: &FsTree, t2: &FsTree, k: int)
    requires
        t1.wf(),
        0 <= k < t1.nodes@.len(),
        t2.nodes@.len() == t1.nodes@.len(),
        t2.ranks == t1.ranks,
        t2.nodes@[k] == (FileSystemNode { children: t2.nodes@[k].children, ..t1.nodes@[k] }),
        t2.nodes@[k].children@ == Seq::<usize>::empty(),
        forall|i: int| 0 <= i < t1.nodes@.len() && i != k ==> t2.nodes@[i] == t1.nodes@[i],
    ensures
        t2.wf(),
{
    assert forall|i: int| 0 <= i < t2.n() implies t2.wf_at(i) by {
        assert(t1.wf_at(i));
        assert(t2.nodes@[i].parent == t1.nodes@[i].parent);
        let ch = t2.nodes@[i].children@;
        if i != k {
            assert(ch == t1.nodes@[i].children@);
            assert forall|j: int| 0 <= j < ch.len() implies (#[trigger] ch[j])
                < t2.nodes@.len() && t2.nodes@[ch[j] as int].parent == Some(i as usize) by {
                assert(t1.nodes@[i].children@[j] == ch[j]);
            }
        }
    }
}

} // verus!

verus! {

/// Every child link points forward in the arena; tree construction keeps
/// this so that one backward pass can aggregate sizes bottom-up.
pub open spec fn index_ordered(t: FsTree) -> bool {
    forall|i: int, j: int|
        0 <= i < t.nodes@.len() && 0 <= j < t.nodes@[i].children@.len() ==> i < (
        #[trigger] t.nodes@[i].children@[j]) as int
}

/// The fully aggregated size of node `i`: its own stored size plus the
/// aggregated sizes of its children, recursively.
pub open spec fn agg_size(t: FsTree, i: int) -> int
    decreases t.nodes@.len() - i, t.nodes@[i].children@.len() + 1int,
{
    t.nodes@[i].size + agg_children(t, i, t.nodes@[i].children@)
}

/// The sum of aggregated sizes over a child list; children that do not
/// point forward contribute nothing, which cannot arise under
/// `index_ordered`.
pub open spec fn agg_children(t: FsTree, i: int, cs: Seq<usize>) -> int
    decreases t.nodes@.len() - i, cs.len(),
{
    if cs.len() == 0 {
        0
    } else {
        (if i < cs[0] as int && (cs[0] as int) < t.nodes@.len() {
            agg_size(t, cs[0] as int)
        } else {
            0
        }) + agg_children(t, i, cs.skip(1))
    }
}

/// The plain sum of the stored sizes over a child list.
pub open spec fn sum_child_sizes(t: FsTree, cs: Seq<usize>) -> int
    decreases cs.len(),
{
    if cs.len() == 0 {
        0
    } else {
        (if (cs[0] as int) < t.nodes@.len() {
            t.nodes@[cs[0] as int].size as int
        } else {
            0
        }) + sum_child_sizes(t, cs.skip(1))
    }
}

/// Every directory holds exactly the sum of its children's sizes.
pub open spec fn sizes_consistent(t: FsTree) -> bool {
    forall|i: int|
        0 <= i < t.nodes@.len() && !t.nodes@[i].is_file ==> t.nodes@[i].size as int
            == sum_child_sizes(t, #[trigger] t.nodes@[i].children@)
}

proof fn lemma_agg_size_nonneg(t: FsTree, i: int)
    ensures
        agg_size(t, i) >= 0,
    decreases t.nodes@.len() - i, t.nodes@[i].children@.len() + 1int,
{
    lemma_agg_children_nonneg(t, i, t.nodes@[i].children@);
}

proof fn lemma_agg_children_nonneg(t: FsTree, i: int, cs: Seq<usize>)
    ensures
        agg_children(t, i, cs) >= 0,
    decreases t.nodes@.len() - i, cs.len(),
{
    if cs.len() > 0 {
        if i < cs[0] as int && (cs[0] as int) < t.nodes@.len() {
            lemma_agg_size_nonneg(t, cs[0] as int);
        }
        lemma_agg_children_nonneg(t, i, cs.skip(1));
    }
}

/// Splitting a child list splits its aggregate sum.
proof fn lemma_agg_children_split(t: FsTree, i: int, cs: Seq<usize>, k: int)
    requires
        0 <= k <= cs.len(),
    ensures
        agg_children(t, i, cs) == agg_children(t, i, cs.take(k)) + agg_children(t, i, cs.skip(k)),
    decreases k,
{
    if k == 0 {
        assert(cs.take(0) =~= Seq::<usize>::empty());
        assert(cs.skip(0) =~= cs);
    } else {
        lemma_agg_children_split(t, i, cs.skip(1), k - 1);
        let b = cs.take(k);
        assert(b.len() == k);
        assert(b[0] == cs[0]);
        assert(b.skip(1) =~= cs.skip(1).take(k - 1));
        assert(cs.skip(k) =~= cs.skip(1).skip(k - 1));
        assert(agg_children(t, i, cs) == (if i < cs[0] as int && (cs[0] as int)
            < t.nodes@.len() {
            agg_size(t, cs[0] as int)
        } else {
            0
        }) + agg_children(t, i, cs.skip(1)));
        assert(agg_children(t, i, b) == (if i < b[0] as int && (b[0] as int)
            < t.nodes@.len() {
            agg_size(t, b[0] as int)
        } else {
            0
        }) + agg_children(t, i, b.skip(1)));
    }
}

impl FsTree {
    /// One bottom-up pass recomputing every node's size as its aggregate.
    /// Returns false, leaving sizes partially rewritten, only when some
    /// aggregate exceeds `u64::MAX`.
    pub fn populate_size(&mut self) -> (ok: bool)
        requires
            old(self).wf(),
            index_ordered(*old(self)),
        ensures
            final(self).wf(),
            index_ordered(*final(self)),
            final(self).nodes@.len() == old(self).nodes@.len(),
            final(self).ranks == old(self).ranks,
            forall|i: int|
                0 <= i < old(self).nodes@.len() ==> final(self).nodes@[i] == (FileSystemNode {
                    size: final(self).nodes@[i].size,
                    ..old(self).nodes@[i]
                }),
            ok ==> forall|i: int|
                0 <= i < old(self).nodes@.len() ==> final(self).nodes@[i].size as int == agg_size(
                    *old(self),
                    i,
                ),
            !ok ==> exists|i: int|
                0 <= i < old(self).nodes@.len() && agg_size(*old(self), i) > u64::MAX,
    {
        let ghost ot = *old(self);
        let n = self.nodes.len();
        let mut i: usize = n;
        while i > 0
            invariant
                ot == *old(self),
                ot.wf(),
                index_ordered(ot),
                i <= n,
                n == ot.nodes@.len(),
                self.nodes@.len() == ot.nodes@.len(),
                self.ranks == ot.ranks,
                self.wf(),
                index_ordered(*self),
                forall|j: int|
                    0 <= j < ot.nodes@.len() ==> self.nodes@[j] == (FileSystemNode {
                        size: self.nodes@[j].size,
                        ..ot.nodes@[j]
                    }),
                forall|j: int| 0 <= j < i ==> self.nodes@[j] == ot.nodes@[j],
                forall|j: int|
                    i <= j < n ==> self.nodes@[j].size as int == agg_size(ot, j),
            decreases i,
        {
            i = i - 1;
            let ghost cs = ot.nodes@[i as int].children@;
            let mut total: u64 = self.nodes[i].size;
            let mut k: usize = 0;
            proof {
                assert(cs.take(0) =~= Seq::<usize>::empty());
                assert(self.nodes@[i as int].children@ == cs);
            }
            while k < self.nodes[i].children.len()
                invariant
                    ot == *old(self),
                    ot.wf(),
                    index_ordered(ot),
                    i < n,
                    n == ot.nodes@.len(),
                    self.nodes@.len() == ot.nodes@.len(),
                    self.ranks == ot.ranks,
                    self.wf(),
                    index_ordered(*self),
                    cs == ot.nodes@[i as int].children@,
                    self.nodes@[i as int].children@ == cs,
                    k <= cs.len(),
                    forall|j: int|
                        0 <= j < ot.nodes@.len() ==> self.nodes@[j] == (FileSystemNode {
                            size: self.nodes@[j].size,
                            ..ot.nodes@[j]
                        }),
                    forall|j: int| 0 <= j <= i ==> self.nodes@[j] == ot.nodes@[j],
                    forall|j: int|
                        i < j < n ==> self.nodes@[j].size as int == agg_size(ot, j),
                    total as int == ot.nodes@[i as int].size + agg_children(ot, i as int, cs.take(k as int)),
                decreases cs.len() - k,
            {
                let c = self.nodes[i].children[k];
                proof {
                    assert(ot.wf_at(i as int));
                    assert(cs[k as int] == c);
                    assert(i < c as int && (c as int) < ot.nodes@.len());
                    // The child was already processed, so its stored size is
                    // its aggregate.
                    assert(self.nodes@[c as int].size as int == agg_size(ot, c as int));
                    // Account for the new term.
                    let b = cs.take(k + 1);
                    assert(b.take(k as int) =~= cs.take(k as int));
                    assert(b.skip(k as int) =~= seq![c]);
                    lemma_agg_children_split(ot, i as int, b, k as int);
                    assert(seq![c].skip(1) =~= Seq::<usize>::empty());
                    assert(agg_children(ot, i as int, Seq::<usize>::empty()) == 0);
                    assert(seq![c][0] == c);
                    assert(agg_children(ot, i as int, seq![c]) == agg_size(ot, c as int));
                }
                match total.checked_add(self.nodes[c].size) {
                    Some(s) => {
                        total = s;
                    },
                    None => {
                        proof {
                            lemma_agg_children_split(ot, i as int, cs, k + 1);
                            lemma_agg_children_nonneg(ot, i as int, cs.skip(k + 1));
                            assert(agg_size(ot, i as int) > u64::MAX);
                        }
                        return false;
                    },
                }
                k = k + 1;
            }
            let ghost before = *self;
            self.nodes[i].size = total;
            proof {
                assert(cs.take(cs.len() as int) =~= cs);
                assert(total as int == agg_size(ot, i as int));
                lemma_wf_same_structure(&before, self);
                assert forall|ii: int, jj: int|
                    0 <= ii < self.nodes@.len() && 0 <= jj < self.nodes@[ii].children@.len()
                        implies ii < (#[trigger] self.nodes@[ii].children@[jj]) as int by {
                    assert(before.nodes@[ii].children@ == self.nodes@[ii].children@);
                }
            }
        }
        true
    }
}

/// After a bottom-up aggregation over a tree whose directories carried no
/// size of their own, every directory holds exactly the sum of its
/// children's sizes.
pub proof fn lemma_populated_sizes_consistent(ot: FsTree, ft: FsTree)
    requires
        ot.wf(),
        index_ordered(ot),
        ft.nodes@.len() == ot.nodes@.len(),
        forall|i: int|
            0 <= i < ot.nodes@.len() ==> ft.nodes@[i] == (FileSystemNode {
                size: ft.nodes@[i].size,
                ..ot.nodes@[i]
            }),
        forall|i: int|
            0 <= i < ot.nodes@.len() ==> ft.nodes@[i].size as int == agg_size(ot, i),
        forall|i: int| 0 <= i < ot.nodes@.len() && !ot.nodes@[i].is_file ==> ot.nodes@[i].size == 0,
    ensures
        sizes_consistent(ft),
{
    assert forall|i: int|
        0 <= i < ft.nodes@.len() && !ft.nodes@[i].is_file implies ft.nodes@[i].size as int
        == sum_child_sizes(ft, #[trigger] ft.nodes@[i].children@) by {
        assert(ot.wf_at(i));
        let cs = ot.nodes@[i].children@;
        assert forall|k: int| 0 <= k < cs.len() implies i < (#[trigger] cs[k]) as int && (
        cs[k] as int) < ot.nodes@.len() by {
            assert(ot.nodes@[i].children@[k] == cs[k]);
        }
        lemma_agg_vs_sum(ot, ft, i, cs);
        assert(ft.nodes@[i].children@ == cs);
        assert(!ot.nodes@[i].is_file);
        assert(ot.nodes@[i].size == 0);
        assert(agg_size(ot, i) == ot.nodes@[i].size + agg_children(ot, i, cs));
        assert(ft.nodes@[i].size as int == agg_size(ot, i));
    }
}

proof fn lemma_agg_vs_sum(ot: FsTree, ft: FsTree, i: int, cs: Seq<usize>)
    requires
        ot.wf(),
        ft.nodes@.len() == ot.nodes@.len(),
        forall|j: int|
            0 <= j < ot.nodes@.len() ==> ft.nodes@[j].size as int == agg_size(ot, j),
        forall|k: int|
            0 <= k < cs.len() ==> i < (#[trigger] cs[k]) as int && (cs[k] as int)
                < ot.nodes@.len(),
    ensures
        agg_children(ot, i, cs) == sum_child_sizes(ft, cs),
    decreases cs.len(),
{
    if cs.len() > 0 {
        assert(cs[0] == cs[0]);
        assert(i < cs[0] as int && (cs[0] as int) < ot.nodes@.len());
        assert forall|k: int|
            0 <= k < cs.skip(1).len() implies i < (#[trigger] cs.skip(1)[k]) as int && (cs.skip(
            1,
        )[k] as int) < ot.nodes@.len() by {
            assert(cs.skip(1)[k] == cs[k + 1]);
        }
        lemma_agg_vs_sum(ot, ft, i, cs.skip(1));
        assert(agg_children(ot, i, cs) == agg_size(ot, cs[0] as int) + agg_children(
            ot,
            i,
            cs.skip(1),
        ));
        assert(sum_child_sizes(ft, cs) == ft.nodes@[cs[0] as int].size + sum_child_sizes(
            ft,
            cs.skip(1),
        ));
        assert(ft.nodes@[cs[0] as int].size as int == agg_size(ot, cs[0] as int));
    }
}

} // verus!

verus! {

use crate::text::spec_dirname;
use crate::text::spec_basename;
use crate::text::dirname;
use crate::text::basename;

/// One enumerated directory entry: a full path, a byte size, and whether it
/// is a file.
pub struct ScanEntry {
    pub path: String,
    pub size: u64,
    pub is_file: bool,
}

/// How a tree node reflects the entry it was made from: same path and kind,
/// the entry's size for files and zero for directories (a directory's own
/// metadata size is never used), the final path component as its name, and
/// no deletion mark.
pub open spec fn entry_placed(nd: FileSystemNode, e: ScanEntry) -> bool {
    &&& nd.path@ == e.path@
    &&& nd.is_file == e.is_file
    &&& nd.size == (if e.is_file {
        e.size
    } else {
        0u64
    })
    &&& nd.name@ == spec_basename(e.path@)
    &&& nd.to_be_deleted == false
}

/// Every element of `xs` is one of the original entries.
pub open spec fn entries_subset(xs: Seq<ScanEntry>, entries: Seq<ScanEntry>) -> bool {
    forall|j: int| 0 <= j < xs.len() ==> entries.contains(#[trigger] xs[j])
}

/// The entry has no parent path, or no node of `t` carries it.
pub open spec fn entry_unplaceable(t: FsTree, e: ScanEntry) -> bool {
    match spec_dirname(e.path@) {
        None => true,
        Some(dp) => forall|i: int| 0 <= i < t.nodes@.len() ==> (#[trigger] t.nodes@[i].path@) != dp,
    }
}

/// The shape `build_nodes` guarantees: a synthetic root at index 0, every
/// other node standing for one input entry, linked under the node carrying
/// its parent path, and no directory holding a size of its own.
pub open spec fn built_tree_ok(t: FsTree, root_path: Seq<char>, entries: Seq<ScanEntry>) -> bool {
    &&& t.wf()
    &&& index_ordered(t)
    &&& t.nodes@[0].name@ == root_path
    &&& t.nodes@[0].path@ == root_path
    &&& !t.nodes@[0].is_file
    &&& t.nodes@[0].size == 0
    &&& t.nodes@[0].parent is None
    &&& !t.nodes@[0].to_be_deleted
    &&& forall|i: int|
        1 <= i < t.nodes@.len() ==> (exists|k: int|
            0 <= k < entries.len() && entry_placed(#[trigger] t.nodes@[i], #[trigger] entries[k]))
    &&& forall|i: int|
        1 <= i < t.nodes@.len() ==> (#[trigger] t.nodes@[i].parent) is Some && spec_dirname(
            t.nodes@[i].path@,
        ) == Some(t.nodes@[t.nodes@[i].parent->0 as int].path@)
    &&& forall|i: int| 0 <= i < t.nodes@.len() && !t.nodes@[i].is_file ==> t.nodes@[i].size == 0
}

impl FsTree {
    /// Finds the node carrying exactly this path, preferring the one added
    /// last, as a path-keyed map with overwriting inserts would.
    pub fn find_by_path(&self, path: &String) -> (r: Option<usize>)
        ensures
            match r {
                Some(u) => (u as int) < self.n() && self.nodes@[u as int].path@ == path@ && forall|
                    i: int,
                |
                    u < i < self.n() ==> (#[trigger] self.nodes@[i].path@) != path@,
                None => forall|i: int|
                    0 <= i < self.n() ==> (#[trigger] self.nodes@[i].path@) != path@,
            },
    {
        let mut i: usize = self.nodes.len();
        while i > 0
            invariant
                i <= self.nodes@.len(),
                forall|j: int| i <= j < self.n() ==> (#[trigger] self.nodes@[j].path@) != path@,
            decreases i,
        {
            i = i - 1;
            if path_eq(&self.nodes[i].path, path) {
                return Some(i);
            }
        }
        None
    }
}

/// Materialises one node per entry under a fresh root, linking each node to
/// the node carrying its parent path, in as many rounds as needed so that
/// no entry order is assumed. Returns the tree and the entries whose parent
/// path never appeared.
pub fn build_nodes(root_path: String, entries: Vec<ScanEntry>) -> (r: (FsTree, Vec<ScanEntry>))
    ensures
        built_tree_ok(r.0, root_path@, entries@),
        entries_subset(r.1@, entries@),
        r.0.nodes@.len() - 1 + r.1@.len() == entries@.len(),
        forall|j: int| 0 <= j < r.1@.len() ==> entry_unplaceable(r.0, #[trigger] r.1@[j]),
{
    let ghost entries0 = entries@;
    let ghost rp = root_path@;
    let root = FileSystemNode {
        name: root_path.clone(),
        path: root_path,
        is_file: false,
        size: 0,
        parent: None,
        children: Vec::new(),
        to_be_deleted: false,
    };
    let mut nodes: Vec<FileSystemNode> = Vec::new();
    nodes.push(root);
    let mut t = FsTree { nodes, ranks: Ghost(Seq::empty()) };
    proof {
        t.ranks@ = seq![0nat];
        assert forall|i: int| 0 <= i < t.n() implies t.wf_at(i) by {
            assert(t.nodes@[i].children@.len() == 0);
        }
    }
    let mut remaining = entries;
    proof {
        assert(remaining@ == entries0);
        assert forall|j: int| 0 <= j < remaining@.len() implies entries0.contains(
            #[trigger] remaining@[j],
        ) by {
            assert(entries0[j] == remaining@[j]);
        }
    }
    let mut progress = true;
    while progress
        invariant
            built_tree_ok(t, rp, entries0),
            rp == root_path@,
            entries_subset(remaining@, entries0),
            t.nodes@.len() - 1 + remaining@.len() == entries0.len(),
            !progress ==> forall|j: int|
                0 <= j < remaining@.len() ==> entry_unplaceable(t, #[trigger] remaining@[j]),
        decreases 2 * remaining@.len() + (if progress {
            1int
        } else {
            0int
        }),
    {
        progress = false;
        let ghost rem0 = remaining@.len() as int;
        let ghost n0 = t.nodes@.len() as int;
        let mut still: Vec<ScanEntry> = Vec::new();
        while remaining.len() > 0
            invariant
                built_tree_ok(t, rp, entries0),
                rp == root_path@,
                entries_subset(remaining@, entries0),
                entries_subset(still@, entries0),
                still@.len() + (t.nodes@.len() - n0) + remaining@.len() == rem0,
                t.nodes@.len() - 1 + remaining@.len() + still@.len() == entries0.len(),
                n0 <= t.nodes@.len(),
                progress ==> t.nodes@.len() > n0,
                !progress ==> forall|j: int|
                    0 <= j < still@.len() ==> entry_unplaceable(t, #[trigger] still@[j]),
            decreases remaining@.len(),
        {
            let ghost rem_pre = remaining@;
            let e = remaining.remove(0);
            proof {
                assert(rem_pre[0] == e);
                assert(remaining@ =~= rem_pre.skip(1));
                assert forall|j: int| 0 <= j < remaining@.len() implies entries0.contains(
                    #[trigger] remaining@[j],
                ) by {
                    assert(rem_pre[j + 1] == remaining@[j]);
                }
                assert(entries0.contains(e));
            }
            let dp = dirname(&e.path);
            match dp {
                None => {
                    let ghost still_pre = still@;
                    still.push(e);
                    proof {
                        assert forall|j: int| 0 <= j < still@.len() implies entries0.contains(
                            #[trigger] still@[j],
                        ) by {
                            if j < still_pre.len() {
                                assert(still@[j] == still_pre[j]);
                            } else {
                                assert(still@[j] == e);
                            }
                        }
                    }
                },
                Some(dpath) => {
                    match t.find_by_path(&dpath) {
                        Some(u) => {
                            let ghost t_pre = t;
                            let nm = basename(&e.path);
                            let sz = if e.is_file {
                                e.size
                            } else {
                                0
                            };
                            let ghost epath = e.path@;
                            let ghost eis = e.is_file;
                            let ghost esz = e.size;
                            let c = t.new_child(u, nm, e.path, e.is_file, sz);
                            progress = true;
                            proof {
                                let ci = c as int;
                                assert(entry_placed(t.nodes@[ci], rem_pre[0]));
                                assert forall|i: int|
                                    1 <= i < t.nodes@.len() implies (exists|k: int|
                                    0 <= k < entries0.len() && entry_placed(
                                        #[trigger] t.nodes@[i],
                                        #[trigger] entries0[k],
                                    )) by {
                                    if i < ci {
                                        let k0 = choose|k0: int|
                                            0 <= k0 < entries0.len() && entry_placed(
                                                t_pre.nodes@[i],
                                                entries0[k0],
                                            );
                                        assert(t.nodes@[i].path@ == t_pre.nodes@[i].path@);
                                        assert(entry_placed(t.nodes@[i], entries0[k0]));
                                    } else {
                                        assert(entries0.contains(rem_pre[0]));
                                        let k1 = choose|k1: int|
                                            0 <= k1 < entries0.len() && entries0[k1] == rem_pre[0];
                                        assert(entry_placed(t.nodes@[ci], entries0[k1]));
                                    }
                                }
                                assert forall|i: int|
                                    1 <= i < t.nodes@.len() implies (#[trigger] t.nodes@[i].parent) is Some
                                    && spec_dirname(t.nodes@[i].path@) == Some(
                                    t.nodes@[t.nodes@[i].parent->0 as int].path@,
                                ) by {
                                    if i < ci {
                                        assert(t_pre.nodes@[i].parent is Some);
                                        let pp = t_pre.nodes@[i].parent->0 as int;
                                        assert(t_pre.wf_at(i));
                                        assert(0 <= pp < t_pre.nodes@.len());
                                        if pp == u as int {
                                            assert(t.nodes@[pp].path == t_pre.nodes@[pp].path);
                                        } else {
                                            assert(t.nodes@[pp] == t_pre.nodes@[pp]);
                                        }
                                    } else {
                                        assert(t.nodes@[ci].parent == Some(u));
                                        assert(t.nodes@[u as int].path@ == dpath@);
                                    }
                                }
                                assert forall|ii: int, jj: int|
                                    0 <= ii < t.nodes@.len() && 0 <= jj < t.nodes@[ii].children@.len()
                                        implies ii < (#[trigger] t.nodes@[ii].children@[jj]) as int by {
                                    if ii == u as int && jj == t.nodes@[ii].children@.len() - 1 {
                                        assert(t.nodes@[ii].children@[jj] == c);
                                        assert(u < c);
                                    } else {
                                        assert(t_pre.nodes@[ii].children@[jj]
                                            == t.nodes@[ii].children@[jj]);
                                        assert(index_ordered(t_pre));
                                    }
                                }
                            }
                        },
                        None => {
                            let ghost still_pre = still@;
                            still.push(e);
                            proof {
                                assert forall|j: int| 0 <= j < still@.len() implies entries0.contains(
                                    #[trigger] still@[j],
                                ) by {
                                    if j < still_pre.len() {
                                        assert(still@[j] == still_pre[j]);
                                    } else {
                                        assert(still@[j] == e);
                                    }
                                }
                                if !progress {
                                    assert forall|j: int|
                                        0 <= j < still@.len() implies entry_unplaceable(
                                        t,
                                        #[trigger] still@[j],
                                    ) by {
                                        if j < still_pre.len() {
                                            assert(still@[j] == still_pre[j]);
                                            assert(entry_unplaceable(t, still_pre[j]));
                                        } else {
                                            assert(still@[j] == e);
                                        }
                                    }
                                }
                            }
                        },
                    }
                },
            }
        }
        remaining = still;
    }
    (t, remaining)
}

} // verus!

verus! {

/// Builds the fully linked and aggregated mirror of a subtree from the flat
/// entry stream the enumerator produced. Entries whose parent path never
/// appears are dropped. Yields nothing only when an aggregate size
/// overflows `u64::MAX`.
pub fn build_fs_model(path: String, entries: Vec<ScanEntry>) -> (r: Option<FsTree>)
    ensures
        match r {
            Some(t) => {
                &&& t.wf()
                &&& index_ordered(t)
                &&& sizes_consistent(t)
                &&& exists|t0: FsTree|
                    {
                        &&& #[trigger] built_tree_ok(t0, path@, entries@)
                        &&& t.nodes@.len() == t0.nodes@.len()
                        &&& forall|i: int|
                            0 <= i < t0.nodes@.len() ==> t.nodes@[i] == (FileSystemNode {
                                size: t.nodes@[i].size,
                                ..t0.nodes@[i]
                            })
                        &&& forall|i: int|
                            0 <= i < t0.nodes@.len() ==> t.nodes@[i].size as int == agg_size(t0, i)
                        &&& exists|dropped: Seq<ScanEntry>|
                            {
                                &&& #[trigger] entries_subset(dropped, entries@)
                                &&& t.nodes@.len() - 1 + dropped.len() == entries@.len()
                                &&& forall|j: int|
                                    0 <= j < dropped.len() ==> entry_unplaceable(
                                        t0,
                                        #[trigger] dropped[j],
                                    )
                            }
                    }
            },
            None => exists|t0: FsTree|
                #[trigger] built_tree_ok(t0, path@, entries@) && exists|i: int|
                    0 <= i < t0.nodes@.len() && #[trigger] agg_size(t0, i) > u64::MAX,
        },
{
    let ghost p0 = path@;
    let ghost es = entries@;
    let (mut t, dropped) = build_nodes(path, entries);
    let ghost t0 = t;
    let ghost dv = dropped@;
    let ok = t.populate_size();
    if !ok {
        proof {
            let i = choose|i: int| 0 <= i < t0.nodes@.len() && agg_size(t0, i) > u64::MAX;
            assert(0 <= i < t0.nodes@.len() && agg_size(t0, i) > u64::MAX);
            assert(built_tree_ok(t0, p0, entries@));
        }
        return None;
    }
    proof {
        lemma_populated_sizes_consistent(t0, t);
        assert forall|ii: int, jj: int|
            0 <= ii < t.nodes@.len() && 0 <= jj < t.nodes@[ii].children@.len() implies ii < (
        #[trigger] t.nodes@[ii].children@[jj]) as int by {
            assert(t.nodes@[ii].children@ == t0.nodes@[ii].children@);
            assert(index_ordered(t0));
        }
        assert(entries_subset(dv, es) && t.nodes@.len() - 1 + dv.len() == es.len() && (forall|
            j: int,
        |
            0 <= j < dv.len() ==> entry_unplaceable(t0, #[trigger] dv[j])));
        assert(built_tree_ok(t0, p0, entries@) && t.nodes@.len() == t0.nodes@.len() && (forall|
            i: int,
        |
            0 <= i < t0.nodes@.len() ==> t.nodes@[i] == (FileSystemNode {
                size: t.nodes@[i].size,
                ..t0.nodes@[i]
            })) && (forall|i: int|
            0 <= i < t0.nodes@.len() ==> t.nodes@[i].size as int == agg_size(t0, i)));
    }
    Some(t)
}

} // verus!

verus! {

/// Two trees that agree on the sizes of the listed nodes give a child list
/// the same size sum.
pub proof fn lemma_sum_child_sizes_same(t1: FsTree, t2: FsTree, cs: Seq<usize>)
    requires
        forall|x: int|
            0 <= x < cs.len() ==> ((#[trigger] cs[x]) as int) < t1.nodes@.len() && (cs[x] as int)
                < t2.nodes@.len() && t2.nodes@[cs[x] as int].size == t1.nodes@[cs[x] as int].size,
    ensures
        sum_child_sizes(t2, cs) == sum_child_sizes(t1, cs),
    decreases cs.len(),
{
    if cs.len() > 0 {
        assert(cs[0] == cs[0]);
        assert forall|x: int|
            0 <= x < cs.skip(1).len() implies ((#[trigger] cs.skip(1)[x]) as int)
            < t1.nodes@.len() && (cs.skip(1)[x] as int) < t2.nodes@.len() && t2.nodes@[cs.skip(
            1,
        )[x] as int].size == t1.nodes@[cs.skip(1)[x] as int].size by {
            assert(cs.skip(1)[x] == cs[x + 1]);
        }
        lemma_sum_child_sizes_same(t1, t2, cs.skip(1));
    }
}

/// Appending one child adds exactly its size to the sum.
pub proof fn lemma_sum_child_sizes_snoc(t: FsTree, cs: Seq<usize>, x: usize)
    ensures
        sum_child_sizes(t, cs.push(x)) == sum_child_sizes(t, cs) + (if (x as int)
            < t.nodes@.len() {
            t.nodes@[x as int].size as int
        } else {
            0
        }),
    decreases cs.len(),
{
    let b = cs.push(x);
    if cs.len() == 0 {
        assert(b[0] == x);
        assert(b.skip(1) =~= Seq::<usize>::empty());
        assert(sum_child_sizes(t, Seq::<usize>::empty()) == 0);
    } else {
        assert(b[0] == cs[0]);
        assert(b.skip(1) =~= cs.skip(1).push(x));
        lemma_sum_child_sizes_snoc(t, cs.skip(1), x);
    }
}

/// Mutations that touch neither sizes, kinds, nor child lists, such as
/// marking for deletion or rewriting names and paths, keep every
/// directory's sum intact.
pub proof fn lemma_sizes_consistent_same_shape(t1: FsTree, t2: FsTree)
    requires
        sizes_consistent(t1),
        t2.nodes@.len() == t1.nodes@.len(),
        forall|i: int|
            0 <= i < t1.nodes@.len() ==> (#[trigger] t2.nodes@[i]).size == t1.nodes@[i].size
                && t2.nodes@[i].is_file == t1.nodes@[i].is_file && t2.nodes@[i].children
                == t1.nodes@[i].children,
    ensures
        sizes_consistent(t2),
{
    assert forall|i: int|
        0 <= i < t2.nodes@.len() && !t2.nodes@[i].is_file implies t2.nodes@[i].size as int
        == sum_child_sizes(t2, #[trigger] t2.nodes@[i].children@) by {
        let cs = t1.nodes@[i].children@;
        assert(t2.nodes@[i].children@ == cs);
        lemma_sum_same_all(t1, t2, cs);
        assert(t1.nodes@[i].size as int == sum_child_sizes(t1, cs));
    }
}

proof fn lemma_sum_same_all(t1: FsTree, t2: FsTree, cs: Seq<usize>)
    requires
        t2.nodes@.len() == t1.nodes@.len(),
        forall|i: int|
            0 <= i < t1.nodes@.len() ==> (#[trigger] t2.nodes@[i]).size == t1.nodes@[i].size,
    ensures
        sum_child_sizes(t2, cs) == sum_child_sizes(t1, cs),
    decreases cs.len(),
{
    if cs.len() > 0 {
        lemma_sum_same_all(t1, t2, cs.skip(1));
    }
}

/// Adding a fresh size-zero child leaves every directory's sum intact.
pub proof fn lemma_sizes_consistent_new_child(t1: FsTree, t2: FsTree, p: int, c: int)
    requires
        t1.wf(),
        sizes_consistent(t1),
        0 <= p < t1.nodes@.len(),
        c == t1.nodes@.len(),
        c <= usize::MAX,
        t2.nodes@.len() == t1.nodes@.len() + 1,
        t2.nodes@[c].size == 0,
        t2.nodes@[c].children@ == Seq::<usize>::empty(),
        forall|i: int| 0 <= i < t1.nodes@.len() && i != p ==> t2.nodes@[i] == t1.nodes@[i],
        t2.nodes@[p] == (FileSystemNode { children: t2.nodes@[p].children, ..t1.nodes@[p] }),
        t2.nodes@[p].children@ == t1.nodes@[p].children@.push(c as usize),
    ensures
        sizes_consistent(t2),
{
    assert forall|i: int|
        0 <= i < t2.nodes@.len() && !t2.nodes@[i].is_file implies t2.nodes@[i].size as int
        == sum_child_sizes(t2, #[trigger] t2.nodes@[i].children@) by {
        if i == c {
            assert(sum_child_sizes(t2, Seq::<usize>::empty()) == 0);
        } else {
            assert(t1.wf_at(i));
            let cs = t1.nodes@[i].children@;
            assert forall|x: int|
                0 <= x < cs.len() implies ((#[trigger] cs[x]) as int) < t1.nodes@.len() && (
            cs[x] as int) < t2.nodes@.len() && t2.nodes@[cs[x] as int].size == t1.nodes@[cs[x] as int].size by {
                assert(t1.nodes@[i].children@[x] == cs[x]);
                if cs[x] as int == p {
                    assert(t2.nodes@[p].size == t1.nodes@[p].size);
                }
            }
            lemma_sum_child_sizes_same(t1, t2, cs);
            if i == p {
                lemma_sum_child_sizes_snoc(t2, cs, c as usize);
                assert((c as usize) as int == c);
                assert(t2.nodes@[c].size == 0);
                assert(sum_child_sizes(t2, cs.push(c as usize)) == sum_child_sizes(t2, cs));
            } else {
                assert(t2.nodes@[i].children@ == cs);
            }
            assert(!t1.nodes@[i].is_file);
            assert(t1.nodes@[i].size as int == sum_child_sizes(t1, cs));
        }
    }
}

} // verus!

verus! {

use crate::text::spec_join;
use crate::text::spec_components;
use crate::text::spec_strip_prefix;
use crate::text::spec_starts_with;
use crate::text::comps_acc;

/// A node is cleanly addressable when, all the way up its chain, each
/// node's path is its parent's path joined with its own clean, unique
/// name: the conditions under which a recorded path can be resolved back.
pub open spec fn resolvable(t: FsTree, i: int) -> bool
    decreases t.ranks@[i],
{
    if i == 0 {
        true
    } else {
        match t.nodes@[i].parent {
            Some(p) => {
                let pi = p as int;
                let nm = t.nodes@[i].name@;
                &&& t.ranks@[pi] < t.ranks@[i]
                &&& resolvable(t, pi)
                &&& t.nodes@[i].path@ == spec_join(t.nodes@[pi].path@, nm)
                &&& nm.len() > 0
                &&& (forall|k: int| 0 <= k < nm.len() ==> nm[k] != '/')
                &&& first_match_name(t, t.nodes@[pi].children@, nm) == Some(i as usize)
            },
            None => false,
        }
    }
}

/// A separator-free run contributes a single component.
proof fn lemma_comps_noslash(s: Seq<char>, cur: Seq<char>)
    requires
        forall|k: int| 0 <= k < s.len() ==> s[k] != '/',
    ensures
        comps_acc(s, cur) == (if cur.len() + s.len() > 0 {
            seq![cur + s]
        } else {
            Seq::<Seq<char>>::empty()
        }),
    decreases s.len(),
{
    if s.len() == 0 {
        if cur.len() > 0 {
            assert(cur + s =~= cur);
        }
    } else {
        assert(s[0] != '/');
        assert forall|k: int| 0 <= k < s.skip(1).len() implies s.skip(1)[k] != '/' by {
            assert(s.skip(1)[k] == s[k + 1]);
        }
        lemma_comps_noslash(s.skip(1), cur.push(s[0]));
        assert(cur.push(s[0]) + s.skip(1) =~= cur + s);
    }
}

/// Splitting at an explicit separator splits the component list.
proof fn lemma_comps_concat(a: Seq<char>, b: Seq<char>, cur: Seq<char>)
    ensures
        comps_acc(a + seq!['/'] + b, cur) == comps_acc(a, cur) + comps_acc(b, Seq::empty()),
    decreases a.len(),
{
    let s = a + seq!['/'] + b;
    if a.len() == 0 {
        assert(s[0] == '/');
        assert(s.skip(1) =~= b);
        assert(comps_acc(s, cur) == (if cur.len() > 0 {
            seq![cur]
        } else {
            Seq::<Seq<char>>::empty()
        }) + comps_acc(b, Seq::empty()));
        assert(comps_acc(a, cur) == (if cur.len() > 0 {
            seq![cur]
        } else {
            Seq::<Seq<char>>::empty()
        }));
        if cur.len() > 0 {
        } else {
            assert(Seq::<Seq<char>>::empty() + comps_acc(b, Seq::<char>::empty()) =~= comps_acc(
                b,
                Seq::<char>::empty(),
            ));
            assert(comps_acc(a, cur) + comps_acc(b, Seq::<char>::empty()) =~= comps_acc(
                b,
                Seq::<char>::empty(),
            ));
        }
    } else {
        assert(s[0] == a[0]);
        assert(s.skip(1) =~= a.skip(1) + seq!['/'] + b);
        if a[0] == '/' {
            lemma_comps_concat(a.skip(1), b, Seq::empty());
            let close = (if cur.len() > 0 {
                seq![cur]
            } else {
                Seq::<Seq<char>>::empty()
            });
            assert(close + (comps_acc(a.skip(1), Seq::empty()) + comps_acc(b, Seq::empty()))
                =~= (close + comps_acc(a.skip(1), Seq::empty())) + comps_acc(b, Seq::empty()));
        } else {
            lemma_comps_concat(a.skip(1), b, cur.push(a[0]));
        }
    }
}

/// Resolving one more name after a component sequence looks it up among
/// the children of the sequence's result.
pub proof fn lemma_nav_append(t: FsTree, st: usize, cs: Seq<Seq<char>>, nm: Seq<char>)
    ensures
        nav(t, st, cs.push(nm)) == (match nav(t, st, cs) {
            Some(q) => match first_match_name(t, t.nodes@[q as int].children@, nm) {
                Some(c) => Some(c),
                None => None::<usize>,
            },
            None => None::<usize>,
        }),
    decreases cs.len(),
{
    let b = cs.push(nm);
    if cs.len() == 0 {
        assert(b[0] == nm);
        assert(b.skip(1) =~= Seq::<Seq<char>>::empty());
        assert(nav(t, st, cs) == Some(st));
        match first_match_name(t, t.nodes@[st as int].children@, nm) {
            Some(c) => {
                assert(nav(t, c, Seq::<Seq<char>>::empty()) == Some(c));
                assert(nav(t, st, b) == Some(c));
            },
            None => {
                assert(nav(t, st, b) is None);
            },
        }
    } else {
        assert(b[0] == cs[0]);
        assert(b.skip(1) =~= cs.skip(1).push(nm));
        match first_match_name(t, t.nodes@[st as int].children@, cs[0]) {
            Some(c) => {
                lemma_nav_append(t, c, cs.skip(1), nm);
            },
            None => {},
        }
    }
}

/// Round trip: a cleanly addressable node's recorded path, made relative
/// to the root's own path, resolves back to exactly that node.
pub proof fn lemma_navigate_roundtrip(t: FsTree, i: int)
    requires
        t.wf(),
        0 <= i < t.nodes@.len(),
        resolvable(t, i),
    ensures
        spec_starts_with(t.nodes@[i].path@, t.nodes@[0].path@),
        nav(
            t,
            0,
            spec_components(spec_strip_prefix(t.nodes@[i].path@, t.nodes@[0].path@)),
        ) == Some(i as usize),
    decreases t.ranks@[i],
{
    let p0 = t.nodes@[0].path@;
    if i == 0 {
        assert(t.nodes@[0].path@.take(p0.len() as int) =~= p0);
        assert(p0.skip(p0.len() as int) =~= Seq::<char>::empty());
        assert(spec_components(Seq::<char>::empty()) == Seq::<Seq<char>>::empty());
    } else {
        let pi = t.nodes@[i].parent->0 as int;
        assert(t.wf_at(i));
        lemma_navigate_roundtrip(t, pi);
        let pp = t.nodes@[pi].path@;
        let nm = t.nodes@[i].name@;
        let fullp = t.nodes@[i].path@;
        let relp = pp.skip(p0.len() as int);
        assert(pp.take(p0.len() as int) == p0);
        if pp == seq!['/'] {
            // The parent is a bare slash: the child path is `/` + name.
            assert(fullp =~= seq!['/'] + nm);
            assert(p0.len() <= 1);
            assert(fullp.len() == 1 + nm.len());
            if p0.len() == 0 {
                assert(fullp.take(0) =~= p0);
                assert(fullp.skip(0) =~= Seq::<char>::empty() + seq!['/'] + nm);
                lemma_comps_concat(Seq::empty(), nm, Seq::empty());
                lemma_comps_noslash(nm, Seq::empty());
                assert(Seq::<char>::empty() + nm =~= nm);
                assert(relp =~= seq!['/']);
                assert(seq!['/'][0] == '/');
                assert(seq!['/'].skip(1) =~= Seq::<char>::empty());
                assert(comps_acc(Seq::<char>::empty(), Seq::<char>::empty())
                    == Seq::<Seq<char>>::empty());
                assert(spec_components(relp) =~= Seq::<Seq<char>>::empty());
                assert(fullp.skip(0) =~= Seq::<char>::empty() + seq!['/'] + nm);
                assert(spec_components(fullp.skip(0)) =~= Seq::<Seq<char>>::empty().push(nm));
            } else {
                assert(p0 =~= seq!['/']);
                assert(fullp.take(1) =~= p0);
                assert(fullp.skip(1) =~= nm);
                lemma_comps_noslash(nm, Seq::empty());
                assert(relp =~= Seq::<char>::empty());
                assert(spec_components(relp) == Seq::<Seq<char>>::empty());
                assert(spec_components(fullp.skip(1)) =~= Seq::<Seq<char>>::empty().push(nm));
            }
        } else {
            assert(fullp =~= pp + seq!['/'] + nm);
            assert(p0.len() <= pp.len());
            assert(fullp.take(p0.len() as int) =~= pp.take(p0.len() as int));
            assert(fullp.skip(p0.len() as int) =~= relp + seq!['/'] + nm);
            lemma_comps_concat(relp, nm, Seq::empty());
            lemma_comps_noslash(nm, Seq::empty());
            assert(Seq::<char>::empty() + nm =~= nm);
            assert(spec_components(fullp.skip(p0.len() as int)) =~= spec_components(relp).push(
                nm,
            ));
        }
        lemma_nav_append(t, 0, spec_components(spec_strip_prefix(pp, p0)), nm);
        assert(spec_strip_prefix(pp, p0) == relp);
        assert(spec_strip_prefix(fullp, p0) == fullp.skip(p0.len() as int));
    }
}

} // verus!

verus! {

/// A first name match survives growing the tree: appending children to
/// nodes and adding fresh nodes displaces no existing match.
proof fn lemma_first_match_grow(
    t1: &FsTree,
    t2: &FsTree,
    cs1: Seq<usize>,
    cs2: Seq<usize>,
    nm: Seq<char>,
)
    requires
        forall|k: int| 0 <= k < cs1.len() ==> ((#[trigger] cs1[k]) as int) < t1.nodes@.len(),
        t2.nodes@.len() >= t1.nodes@.len(),
        forall|i: int| 0 <= i < t1.nodes@.len() ==> (#[trigger] t2.nodes@[i]).name@ == t1.nodes@[i].name@,
        cs2.len() >= cs1.len(),
        cs2.take(cs1.len() as int) == cs1,
        first_match_name(*t1, cs1, nm) is Some,
    ensures
        first_match_name(*t2, cs2, nm) == first_match_name(*t1, cs1, nm),
    decreases cs1.len(),
{
    assert(cs2[0] == cs2.take(cs1.len() as int)[0]);
    assert(cs2[0] == cs1[0]);
    assert(cs1[0] == cs1[0]);
    assert(t2.nodes@[cs2[0] as int].name@ == t1.nodes@[cs1[0] as int].name@);
    if t1.nodes@[cs1[0] as int].name@ == nm {
    } else {
        assert forall|k: int| 0 <= k < cs1.skip(1).len() implies ((#[trigger] cs1.skip(1)[k]) as int)
            < t1.nodes@.len() by {
            assert(cs1.skip(1)[k] == cs1[k + 1]);
        }
        assert(cs2.skip(1).take(cs1.skip(1).len() as int) =~= cs1.skip(1));
        lemma_first_match_grow(t1, t2, cs1.skip(1), cs2.skip(1), nm);
    }
}

/// When no listed child carries the name, a fresh child appended with that
/// name becomes the first match.
pub proof fn lemma_first_match_push(
    t1: &FsTree,
    t2: &FsTree,
    cs: Seq<usize>,
    c: usize,
    nm: Seq<char>,
)
    requires
        forall|k: int| 0 <= k < cs.len() ==> ((#[trigger] cs[k]) as int) < t1.nodes@.len(),
        t2.nodes@.len() >= t1.nodes@.len(),
        forall|i: int| 0 <= i < t1.nodes@.len() ==> (#[trigger] t2.nodes@[i]).name@ == t1.nodes@[i].name@,
        first_match_name(*t1, cs, nm) is None,
        (c as int) < t2.nodes@.len(),
        t2.nodes@[c as int].name@ == nm,
    ensures
        first_match_name(*t2, cs.push(c), nm) == Some(c),
    decreases cs.len(),
{
    let b = cs.push(c);
    if cs.len() == 0 {
        assert(b[0] == c);
    } else {
        assert(b[0] == cs[0]);
        assert(cs[0] == cs[0]);
        assert(t2.nodes@[b[0] as int].name@ == t1.nodes@[cs[0] as int].name@);
        assert(t1.nodes@[cs[0] as int].name@ != nm);
        assert forall|k: int| 0 <= k < cs.skip(1).len() implies ((#[trigger] cs.skip(1)[k]) as int)
            < t1.nodes@.len() by {
            assert(cs.skip(1)[k] == cs[k + 1]);
        }
        assert(b.skip(1) =~= cs.skip(1).push(c));
        lemma_first_match_push(t1, t2, cs.skip(1), c, nm);
    }
}

/// Resolved component sequences keep resolving, to the same node, as the
/// tree grows by appended children and fresh nodes.
pub proof fn lemma_nav_grow(t1: &FsTree, t2: &FsTree, start: usize, cs: Seq<Seq<char>>)
    requires
        t1.wf(),
        (start as int) < t1.nodes@.len(),
        t2.nodes@.len() >= t1.nodes@.len(),
        forall|i: int|
            0 <= i < t1.nodes@.len() ==> (#[trigger] t2.nodes@[i]).name@ == t1.nodes@[i].name@
                && t2.nodes@[i].children@.len() >= t1.nodes@[i].children@.len()
                && t2.nodes@[i].children@.take(t1.nodes@[i].children@.len() as int)
                == t1.nodes@[i].children@,
        nav(*t1, start, cs) is Some,
    ensures
        nav(*t2, start, cs) == nav(*t1, start, cs),
    decreases cs.len(),
{
    if cs.len() > 0 {
        assert(t1.wf_at(start as int));
        let cs1 = t1.nodes@[start as int].children@;
        let cs2 = t2.nodes@[start as int].children@;
        lemma_first_match_grow(t1, t2, cs1, cs2, cs[0]);
        let c = first_match_name(*t1, cs1, cs[0])->0;
        lemma_first_match_name_in(t1, cs1, cs[0]);
        lemma_nav_grow(t1, t2, c, cs.skip(1));
    }
}

/// Resolving a component sequence factors through any prefix: resolve the
/// first `i` components, then the rest from there.
pub proof fn lemma_nav_decompose(t: FsTree, s: usize, cs: Seq<Seq<char>>, i: int)
    requires
        0 <= i <= cs.len(),
    ensures
        nav(t, s, cs) == (match nav(t, s, cs.take(i)) {
            Some(q) => nav(t, q, cs.skip(i)),
            None => None::<usize>,
        }),
    decreases i,
{
    if i == 0 {
        assert(cs.take(0) =~= Seq::<Seq<char>>::empty());
        assert(cs.skip(0) =~= cs);
    } else {
        let a = cs.take(i);
        assert(a[0] == cs[0]);
        match first_match_name(t, t.nodes@[s as int].children@, cs[0]) {
            None => {},
            Some(c) => {
                assert(a.skip(1) =~= cs.skip(1).take(i - 1));
                assert(cs.skip(i) =~= cs.skip(1).skip(i - 1));
                lemma_nav_decompose(t, c, cs.skip(1), i - 1);
            },
        }
    }
}

/// A non-trivial name resolution ends at a node its parent actually
/// lists: the result of the last lookup step.
pub proof fn lemma_nav_last_step(t: FsTree, s: usize, cs: Seq<Seq<char>>)
    requires
        t.wf(),
        (s as int) < t.nodes@.len(),
        cs.len() > 0,
        nav(t, s, cs) is Some,
    ensures
        (nav(t, s, cs)->0 as int) < t.nodes@.len(),
        t.nodes@[nav(t, s, cs)->0 as int].parent is Some,
        ({
            let x = nav(t, s, cs)->0;
            let p = t.nodes@[x as int].parent->0;
            (p as int) < t.nodes@.len() && t.nodes@[p as int].children@.contains(x)
        }),
    decreases cs.len(),
{
    let ch = t.nodes@[s as int].children@;
    let c = first_match_name(t, ch, cs[0])->0;
    lemma_first_match_name_in(&t, ch, cs[0]);
    assert(t.wf_at(s as int));
    let w = choose|w: int| 0 <= w < ch.len() && ch[w] == c;
    assert(t.nodes@[c as int].parent == Some(s));
    if cs.len() == 1 {
        assert(cs.skip(1) =~= Seq::<Seq<char>>::empty());
        assert(nav(t, c, cs.skip(1)) == Some(c));
        assert(ch.contains(c));
    } else {
        lemma_nav_last_step(t, c, cs.skip(1));
    }
}

/// A first name match names one of the listed children.
pub proof fn lemma_first_match_name_in(t: &FsTree, cs: Seq<usize>, nm: Seq<char>)
    requires
        first_match_name(*t, cs, nm) is Some,
    ensures
        cs.contains(first_match_name(*t, cs, nm)->0),
    decreases cs.len(),
{
    if cs.len() > 0 && t.nodes@[cs[0] as int].name@ != nm {
        lemma_first_match_name_in(t, cs.skip(1), nm);
        let c = first_match_name(*t, cs.skip(1), nm)->0;
        let w = choose|w: int| 0 <= w < cs.skip(1).len() && cs.skip(1)[w] == c;
        assert(cs[w + 1] == c);
    }
}

} // verus!

//! The action journal: an ordered queue of pending mutations applied
//! optimistically to the in-memory tree at submission time and drained in
//! order at commit time.

use vstd::prelude::*;
use std::collections::VecDeque;

use crate::system::FsTree;
use crate::system::FileSystemNode;
use crate::system::nav;
use crate::system::first_match_name;
use crate::text::spec_digits;
use crate::text::u64_to_dec;
use crate::text::digit_char;
use crate::text::digit_to_char;
use crate::text::push_char;
use crate::text::spec_components;
use crate::text::spec_strip_prefix;
use crate::text::spec_join;
use crate::text::spec_basename;
use crate::text::spec_starts_with;
use crate::text::split_components;
use crate::text::strip_prefix;

verus! {

/// One pending mutation, queued until commit.
#[allow(non_camel_case_types)]
pub enum KernelAction {
    CREATE { path: String, is_file: bool },
    DELETE { target: usize },
    MOVE { original_path: String, new_path: String },
}

/// The journal: the mirrored tree, the pending queue, and the last AI
/// suggestion text, plus the commit flags it was started with.
pub struct Kernel {
    pub tree: FsTree,
    pub actions: VecDeque<KernelAction>,
    pub ai_suggestion: String,
    pub action_file: bool,
    pub dry: bool,
}

impl Kernel {
    /// The journal is well formed when its tree is and every queued delete
    /// names a node of the arena.
    pub open spec fn wf(&self) -> bool {
        &&& self.tree.wf()
        &&& forall|j: int|
            0 <= j < self.actions@.len() ==> match #[trigger] self.actions@[j] {
                KernelAction::DELETE { target } => (target as int) < self.tree.n(),
                _ => true,
            }
    }

    pub fn new(root: FsTree, action_file: bool, dry: bool) -> (r: Self)
        requires
            root.wf(),
        ensures
            r.wf(),
            r.tree == root,
            r.actions@ == Seq::<KernelAction>::empty(),
            r.ai_suggestion@ == Seq::<char>::empty(),
            r.action_file == action_file,
            r.dry == dry,
    {
        Kernel {
            tree: root,
            actions: VecDeque::new(),
            ai_suggestion: String::new(),
            action_file,
            dry,
        }
    }

    pub fn set_suggestion(&mut self, suggestion: String)
        ensures
            *final(self) == (Kernel { ai_suggestion: suggestion, ..*old(self) }),
    {
        self.ai_suggestion = suggestion;
    }

    pub fn get_suggestion(&self) -> (r: String)
        ensures
            r@ == self.ai_suggestion@,
    {
        self.ai_suggestion.clone()
    }

    pub fn get_parent(&self, node: usize) -> (r: Option<usize>)
        requires
            node < self.tree.nodes@.len(),
        ensures
            r == self.tree.nodes@[node as int].parent,
    {
        self.tree.nodes[node].get_parent()
    }

    /// The child at `index`, for navigation: nothing comes back for an
    /// index out of range or a child that is a file.
    pub fn get_child(&self, node: usize, index: usize) -> (r: Option<usize>)
        requires
            self.wf(),
            node < self.tree.nodes@.len(),
        ensures
            ({
                let cs = self.tree.nodes@[node as int].children@;
                if index < cs.len() && !self.tree.nodes@[cs[index as int] as int].is_file {
                    r == Some(cs[index as int])
                } else {
                    r is None
                }
            }),
            r is Some ==> (r->0 as int) < self.tree.n(),
    {
        proof {
            assert(self.tree.wf_at(node as int));
        }
        match self.tree.nodes[node].get_child(index) {
            Some(c) => {
                proof {
                    assert(self.tree.nodes@[node as int].children@[index as int] == c);
                }
                if self.tree.nodes[c].is_file() {
                    None
                } else {
                    Some(c)
                }
            },
            None => None,
        }
    }

    /// The position among `node`'s children of the first child whose full
    /// path is `child`.
    pub fn get_index(&self, node: usize, child: String) -> (r: Option<usize>)
        requires
            self.wf(),
            node < self.tree.nodes@.len(),
        ensures
            ({
                let found = first_path_index(
                    self.tree,
                    self.tree.nodes@[node as int].children@,
                    child@,
                    0,
                );
                match r {
                    Some(i) => found == Some(i as int) && (i as int)
                        < self.tree.nodes@[node as int].children@.len(),
                    None => found is None,
                }
            }),
    {
        let ghost cs = self.tree.nodes@[node as int].children@;
        let mut i: usize = 0;
        let l = self.tree.nodes[node].children_len();
        while i < l
            invariant
                self.wf(),
                node < self.tree.nodes@.len(),
                cs == self.tree.nodes@[node as int].children@,
                l == cs.len(),
                i <= l,
                first_path_index(self.tree, cs, child@, 0) == first_path_index(
                    self.tree,
                    cs,
                    child@,
                    i as int,
                ),
            decreases l - i,
        {
            proof {
                assert(self.tree.wf_at(node as int));
            }
            let c = self.tree.nodes[node].children[i];
            if crate::system::path_eq(&self.tree.nodes[c].path, &child) {
                return Some(i);
            }
            i = i + 1;
        }
        None
    }

    /// Resolves a path against the tree: the root's own path is stripped
    /// when it leads, and the remaining components are looked up one by one.
    pub fn go_to(&self, path: String) -> (r: Option<usize>)
        requires
            self.wf(),
        ensures
            r == nav(
                self.tree,
                0,
                spec_components(spec_strip_prefix(path@, self.tree.nodes@[0].path@)),
            ),
            r is Some ==> (r->0 as int) < self.tree.n(),
    {
        let rel = strip_prefix(&path, &self.tree.nodes[0].path);
        let comps = split_components(&rel);
        self.tree.navigate(0, &comps)
    }

    /// Marks the child of `node` at `index` for deletion and queues the
    /// delete; out-of-range indexes change nothing.
    pub fn mark_for_deletion(&mut self, node: usize, index: usize)
        requires
            old(self).wf(),
            node < old(self).tree.nodes@.len(),
        ensures
            final(self).wf(),
            mark_post(*old(self), *final(self), node, index),
    {
        proof {
            assert(old(self).tree.wf_at(node as int));
        }
        match self.tree.nodes[node].get_child(index) {
            Some(c) => {
                self.actions.push_back(KernelAction::DELETE { target: c });
                let ghost before = self.tree;
                self.tree.nodes[c].delete();
                proof {
                    crate::system::lemma_wf_same_structure(&before, &self.tree);
                    assert(self.tree.nodes@ =~= old(self).tree.nodes@.update(
                        c as int,
                        (FileSystemNode {
                            to_be_deleted: true,
                            ..old(self).tree.nodes@[c as int]
                        }),
                    ));
                }
            },
            None => {},
        }
    }

    /// Removes the queued action at `index`; a delete additionally clears
    /// its target's mark, restoring it to the listings.
    pub fn undo_deletion(&mut self, index: usize)
        requires
            old(self).wf(),
            index < old(self).actions@.len(),
        ensures
            final(self).wf(),
            final(self).actions@ == old(self).actions@.remove(index as int),
            ({
                match old(self).actions@[index as int] {
                    KernelAction::DELETE { target } => {
                        &&& final(self).tree.nodes@ == old(self).tree.nodes@.update(
                            target as int,
                            (FileSystemNode {
                                to_be_deleted: false,
                                ..old(self).tree.nodes@[target as int]
                            }),
                        )
                        &&& final(self).tree.ranks == old(self).tree.ranks
                    },
                    _ => final(self).tree == old(self).tree,
                }
            }),
            *final(self) == (Kernel {
                tree: final(self).tree,
                actions: final(self).actions,
                ..*old(self)
            }),
    {
        let is_delete: Option<usize> = match &self.actions[index] {
            KernelAction::DELETE { target } => Some(*target),
            _ => None,
        };
        match is_delete {
            Some(target) => {
                let ghost before = self.tree;
                self.tree.nodes[target].undelete();
                proof {
                    crate::system::lemma_wf_same_structure(&before, &self.tree);
                    assert(self.tree.nodes@ =~= old(self).tree.nodes@.update(
                        target as int,
                        (FileSystemNode {
                            to_be_deleted: false,
                            ..old(self).tree.nodes@[target as int]
                        }),
                    ));
                }
            },
            None => {},
        }
        let _ = self.actions.remove(index);
    }
}


/// How the journal looks after marking the child of `node` at `index` for
/// deletion: the child carries the mark, one delete is queued, and nothing
/// else moves; an index out of range changes nothing.
pub open spec fn mark_post(k0: Kernel, k1: Kernel, node: usize, index: usize) -> bool {
    let cs = k0.tree.nodes@[node as int].children@;
    if index < cs.len() {
        let c = cs[index as int] as int;
        &&& k1.actions@ == k0.actions@.push(KernelAction::DELETE { target: cs[index as int] })
        &&& k1.tree.nodes@ == k0.tree.nodes@.update(
            c,
            (FileSystemNode { to_be_deleted: true, ..k0.tree.nodes@[c] }),
        )
        &&& k1.tree.ranks == k0.tree.ranks
        &&& k1 == (Kernel { tree: k1.tree, actions: k1.actions, ..k0 })
    } else {
        k1 == k0
    }
}

/// The position in `cs`, at or after `k`, of the first node whose path is
/// `path`.
pub open spec fn first_path_index(t: FsTree, cs: Seq<usize>, path: Seq<char>, k: int) -> Option<
    int,
>
    decreases cs.len() - k,
{
    if k < 0 || k >= cs.len() {
        None
    } else if t.nodes@[cs[k] as int].path@ == path {
        Some(k)
    } else {
        first_path_index(t, cs, path, k + 1)
    }
}

} // verus!

verus! {

pub const KIB: u64 = 1024;

pub const MIB: u64 = 1024 * 1024;

pub const GIB: u64 = 1024 * 1024 * 1024;

pub const TIB: u64 = 1024 * 1024 * 1024 * 1024;

/// A size scaled by `unit`, with two decimal places, rounding ties to the
/// even digit as the standard floating-point formatting does.
pub open spec fn spec_two_dec(size: u64, unit: u64) -> Seq<char> {
    let q = size as nat / unit as nat;
    let num = (size as nat % unit as nat) * 100;
    let f = num / unit as nat;
    let rem = num % unit as nat;
    let half = unit as nat / 2;
    let fr = if rem > half || (rem == half && f % 2 == 1) {
        f + 1
    } else {
        f
    };
    let q2 = if fr == 100 {
        q + 1
    } else {
        q
    };
    let ff = if fr == 100 {
        0
    } else {
        fr
    };
    spec_digits(q2) + seq!['.'] + seq![digit_char(ff / 10), digit_char(ff % 10)]
}

/// A byte count in binary units: the largest unit where the value reaches
/// one, two decimals for scaled units, plain bytes below 1024.
pub open spec fn spec_format_size(size: u64) -> Seq<char> {
    if size >= TIB {
        spec_two_dec(size, TIB) + " TB"@
    } else if size >= GIB {
        spec_two_dec(size, GIB) + " GB"@
    } else if size >= MIB {
        spec_two_dec(size, MIB) + " MB"@
    } else if size >= KIB {
        spec_two_dec(size, KIB) + " KB"@
    } else {
        spec_digits(size as nat) + " bytes"@
    }
}

/// Renders `size / unit` with two decimal places, per `spec_two_dec`.
fn two_dec(size: u64, unit: u64) -> (r: String)
    requires
        1024 <= unit <= TIB,
    ensures
        r@ == spec_two_dec(size, unit),
{
    let q = size / unit;
    let num = size % unit * 100;
    let f = num / unit;
    let rem = num % unit;
    let half = unit / 2;
    proof {
        assert(size % unit < unit);
        assert(size % unit * 100 <= (unit - 1) * 100);
        assert((size as int % unit as int) * 100 / (unit as int) < 100) by (nonlinear_arith)
            requires
                1 <= unit as int,
        ;
        assert(f == (size as int % unit as int) * 100 / (unit as int));
        assert(q <= size / 1024) by (nonlinear_arith)
            requires
                1024 <= unit,
                q == size / unit,
        ;
    }
    let fr = if rem > half || (rem == half && f % 2 == 1) {
        f + 1
    } else {
        f
    };
    let q2 = if fr == 100 {
        q + 1
    } else {
        q
    };
    let ff = if fr == 100 {
        0
    } else {
        fr
    };
    let mut out = u64_to_dec(q2);
    push_char(&mut out, '.');
    push_char(&mut out, digit_to_char(ff / 10));
    push_char(&mut out, digit_to_char(ff % 10));
    proof {
        assert(out@ =~= spec_two_dec(size, unit));
    }
    out
}

impl Kernel {
    /// Renders a byte count per `spec_format_size`.
    pub fn format_size(&self, size: u64) -> (r: String)
        ensures
            r@ == spec_format_size(size),
    {
        proof {
            reveal_strlit(" TB");
            reveal_strlit(" GB");
            reveal_strlit(" MB");
            reveal_strlit(" KB");
            reveal_strlit(" bytes");
        }
        if size >= TIB {
            let mut out = two_dec(size, TIB);
            out.append(" TB");
            out
        } else if size >= GIB {
            let mut out = two_dec(size, GIB);
            out.append(" GB");
            out
        } else if size >= MIB {
            let mut out = two_dec(size, MIB);
            out.append(" MB");
            out
        } else if size >= KIB {
            let mut out = two_dec(size, KIB);
            out.append(" KB");
            out
        } else {
            let mut out = u64_to_dec(size);
            out.append(" bytes");
            out
        }
    }
}

/// The marker after a listed entry's size.
pub open spec fn spec_node_type(is_file: bool) -> Seq<char> {
    if is_file {
        "[File]"@
    } else {
        "[Directory]"@
    }
}

/// One line of the browse listing: index, name, formatted size, and kind.
pub open spec fn spec_child_line(t: FsTree, c: int, i: int) -> Seq<char> {
    "["@ + spec_digits(i as nat) + "] "@ + t.nodes@[c].name@ + " ("@ + spec_format_size(
        t.nodes@[c].size,
    ) + " "@ + spec_node_type(t.nodes@[c].is_file) + ")\n"@
}

/// The listing lines for a child sequence starting at display index `i0`;
/// children marked for deletion are hidden but keep consuming indexes.
pub open spec fn spec_display_lines(t: FsTree, cs: Seq<usize>, i0: int) -> Seq<char>
    decreases cs.len(),
{
    if cs.len() == 0 {
        Seq::empty()
    } else {
        (if (cs[0] as int) < t.nodes@.len() && !t.nodes@[cs[0] as int].to_be_deleted {
            spec_child_line(t, cs[0] as int, i0)
        } else {
            Seq::empty()
        }) + spec_display_lines(t, cs.skip(1), i0 + 1)
    }
}

/// The full browse listing of one directory.
pub open spec fn spec_display(k: Kernel, node: int) -> Seq<char> {
    "\nCurrent Directory: "@ + k.tree.nodes@[node].path@ + "\n"@ + spec_display_lines(
        k.tree,
        k.tree.nodes@[node].children@,
        0,
    ) + "Total storage used: "@ + spec_format_size(k.tree.nodes@[node].size) + "\n"@
}

/// Appending one child to the listed prefix appends its line (or nothing
/// when it is hidden).
proof fn lemma_display_lines_snoc(t: FsTree, cs: Seq<usize>, k: int, i0: int)
    requires
        0 <= k < cs.len(),
    ensures
        spec_display_lines(t, cs.take(k + 1), i0) == spec_display_lines(t, cs.take(k), i0) + (if (
        cs[k] as int) < t.nodes@.len() && !t.nodes@[cs[k] as int].to_be_deleted {
            spec_child_line(t, cs[k] as int, i0 + k)
        } else {
            Seq::<char>::empty()
        }),
    decreases k,
{
    let a = cs.take(k);
    let b = cs.take(k + 1);
    let item = (if (cs[k] as int) < t.nodes@.len() && !t.nodes@[cs[k] as int].to_be_deleted {
        spec_child_line(t, cs[k] as int, i0 + k)
    } else {
        Seq::<char>::empty()
    });
    if k == 0 {
        assert(a =~= Seq::<usize>::empty());
        assert(b.skip(1) =~= Seq::<usize>::empty());
        assert(b[0] == cs[0]);
        assert(spec_display_lines(t, Seq::<usize>::empty(), i0 + 1) == Seq::<char>::empty());
        assert(spec_display_lines(t, b, i0) == item + Seq::<char>::empty());
        assert(item + Seq::<char>::empty() =~= item);
        assert(Seq::<char>::empty() + item =~= item);
        assert(spec_display_lines(t, a, i0) == Seq::<char>::empty());
    } else {
        lemma_display_lines_snoc(t, cs.skip(1), k - 1, i0 + 1);
        assert(b[0] == cs[0]);
        assert(a[0] == cs[0]);
        assert(b.skip(1) =~= cs.skip(1).take(k));
        assert(a.skip(1) =~= cs.skip(1).take(k - 1));
        assert(cs.skip(1)[k - 1] == cs[k]);
        let head = (if (cs[0] as int) < t.nodes@.len() && !t.nodes@[cs[0] as int].to_be_deleted {
            spec_child_line(t, cs[0] as int, i0)
        } else {
            Seq::<char>::empty()
        });
        assert(spec_display_lines(t, b, i0) == head + spec_display_lines(t, cs.skip(1).take(k), i0
            + 1));
        assert(spec_display_lines(t, a, i0) == head + spec_display_lines(
            t,
            cs.skip(1).take(k - 1),
            i0 + 1,
        ));
        assert(head + (spec_display_lines(t, cs.skip(1).take(k - 1), i0 + 1) + item) =~= (head
            + spec_display_lines(t, cs.skip(1).take(k - 1), i0 + 1)) + item);
    }
}

impl Kernel {
    /// Renders the browse listing of `node`: its path, its visible children
    /// with their positions, and its total size.
    #[verifier::rlimit(60)]
    pub fn display(&self, node: usize) -> (r: String)
        requires
            self.wf(),
            node < self.tree.nodes@.len(),
        ensures
            r@ == spec_display(*self, node as int),
    {
        proof {
            reveal_strlit("\nCurrent Directory: ");
            reveal_strlit("\n");
            reveal_strlit("Total storage used: ");
        }
        let mut out = String::from_str("\nCurrent Directory: ");
        out.append(self.tree.nodes[node].get_path());
        out.append("\n");
        let ghost cs = self.tree.nodes@[node as int].children@;
        let ghost header = out@;
        proof {
            assert(cs.take(0) =~= Seq::<usize>::empty());
        }
        let mut i: usize = 0;
        let l = self.tree.nodes[node].children_len();
        while i < l
            invariant
                self.wf(),
                node < self.tree.nodes@.len(),
                cs == self.tree.nodes@[node as int].children@,
                l == cs.len(),
                i <= l,
                out@ == header + spec_display_lines(self.tree, cs.take(i as int), 0),
            decreases l - i,
        {
            proof {
                assert(self.tree.wf_at(node as int));
                lemma_display_lines_snoc(self.tree, cs, i as int, 0);
            }
            let c = self.tree.nodes[node].children[i];
            if !self.tree.nodes[c].is_marked() {
                proof {
                    reveal_strlit("[");
                    reveal_strlit("] ");
                    reveal_strlit(" (");
                    reveal_strlit(" ");
                    reveal_strlit(")\n");
                    reveal_strlit("[File]");
                    reveal_strlit("[Directory]");
                }
                out.append("[");
                let d = u64_to_dec(i as u64);
                out.append(d.as_str());
                out.append("] ");
                out.append(self.tree.nodes[c].get_name());
                out.append(" (");
                let f = self.format_size(self.tree.nodes[c].size());
                out.append(f.as_str());
                out.append(" ");
                if self.tree.nodes[c].is_file() {
                    out.append("[File]");
                } else {
                    out.append("[Directory]");
                }
                out.append(")\n");
                proof {
                    assert(out@ =~= header + (spec_display_lines(self.tree, cs.take(i as int), 0)
                        + spec_child_line(self.tree, c as int, i as int)));
                }
            }
            i = i + 1;
        }
        proof {
            assert(cs.take(l as int) =~= cs);
        }
        out.append("Total storage used: ");
        let f = self.format_size(self.tree.nodes[node].size());
        out.append(f.as_str());
        out.append("\n");
        proof {
            assert(out@ =~= spec_display(*self, node as int));
        }
        out
    }
}

} // verus!

verus! {

/// One line of the pending-queue report.
pub open spec fn spec_action_line(k: Kernel, j: int) -> Seq<char> {
    match k.actions@[j] {
        KernelAction::CREATE { path, is_file } => "["@ + spec_digits(j as nat) + "] CREATE: "@
            + path@,
        KernelAction::DELETE { target } => {
            let p = if (target as int) < k.tree.n() {
                k.tree.nodes@[target as int].path@
            } else {
                Seq::<char>::empty()
            };
            let sz = if (target as int) < k.tree.n() {
                k.tree.nodes@[target as int].size
            } else {
                0u64
            };
            "["@ + spec_digits(j as nat) + "] DELETE: "@ + p + " ("@ + spec_format_size(sz) + ")"@
        },
        KernelAction::MOVE { original_path, new_path } => "["@ + spec_digits(j as nat)
            + "] MOVE: "@ + original_path@ + " -> "@ + new_path@,
    }
}

/// The report lines from position `j` on, each preceded by a line break.
pub open spec fn spec_status_tail(k: Kernel, j: int) -> Seq<char>
    decreases k.actions@.len() - j,
{
    if j < 0 || j >= k.actions@.len() {
        Seq::empty()
    } else {
        "\n"@ + spec_action_line(k, j) + spec_status_tail(k, j + 1)
    }
}

/// The bytes the queued deletes would free, from position `j` on.
pub open spec fn spec_saved_from(k: Kernel, j: int) -> int
    decreases k.actions@.len() - j,
{
    if j < 0 || j >= k.actions@.len() {
        0
    } else {
        (match k.actions@[j] {
            KernelAction::DELETE { target } => if (target as int) < k.tree.n() {
                k.tree.nodes@[target as int].size as int
            } else {
                0
            },
            _ => 0,
        }) + spec_saved_from(k, j + 1)
    }
}

/// The bytes all queued deletes together would free.
pub open spec fn spec_saved(k: Kernel) -> int {
    spec_saved_from(k, 0)
}

/// A byte total clipped into `u64`, as the saturating accumulation of the
/// report computes it.
pub open spec fn sat_u64(x: int) -> u64 {
    if x > u64::MAX {
        u64::MAX
    } else if x < 0 {
        0u64
    } else {
        x as u64
    }
}

/// The full pending-queue report.
pub open spec fn spec_status(k: Kernel) -> Seq<char> {
    "The following are marked for action: \n "@ + (if k.actions@.len() == 0 {
        Seq::<char>::empty()
    } else {
        spec_status_tail(k, 0).skip(1)
    }) + " \nTotal space saved: "@ + spec_format_size(sat_u64(spec_saved(k)))
}

proof fn lemma_saved_from_nonneg(k: Kernel, j: int)
    ensures
        spec_saved_from(k, j) >= 0,
    decreases k.actions@.len() - j,
{
    if 0 <= j < k.actions@.len() {
        lemma_saved_from_nonneg(k, j + 1);
    }
}

impl Kernel {
    /// One line of the report, for the queued action at `j`.
    fn action_line(&self, j: usize) -> (r: String)
        requires
            self.wf(),
            j < self.actions@.len(),
        ensures
            r@ == spec_action_line(*self, j as int),
    {
        proof {
            reveal_strlit("[");
            reveal_strlit("] CREATE: ");
            reveal_strlit("] DELETE: ");
            reveal_strlit("] MOVE: ");
            reveal_strlit(" (");
            reveal_strlit(")");
            reveal_strlit(" -> ");
        }
        let mut out = String::from_str("[");
        let d = u64_to_dec(j as u64);
        out.append(d.as_str());
        match &self.actions[j] {
            KernelAction::CREATE { path, is_file: _ } => {
                out.append("] CREATE: ");
                out.append(path.as_str());
            },
            KernelAction::DELETE { target } => {
                out.append("] DELETE: ");
                out.append(self.tree.nodes[*target].get_path());
                out.append(" (");
                let f = self.format_size(self.tree.nodes[*target].size());
                out.append(f.as_str());
                out.append(")");
            },
            KernelAction::MOVE { original_path, new_path } => {
                out.append("] MOVE: ");
                out.append(original_path.as_str());
                out.append(" -> ");
                out.append(new_path.as_str());
            },
        }
        proof {
            assert(out@ =~= spec_action_line(*self, j as int));
        }
        out
    }

    /// Renders the pending queue with per-action lines and the total bytes
    /// the queued deletes would free.
    #[verifier::rlimit(60)]
    pub fn get_status(&self) -> (r: String)
        requires
            self.wf(),
        ensures
            r@ == spec_status(*self),
    {
        proof {
            reveal_strlit("The following are marked for action: \n ");
            reveal_strlit(" \nTotal space saved: ");
            reveal_strlit("\n");
        }
        let mut lines = String::new();
        let mut total: u64 = 0;
        let mut j: usize = 0;
        let l = self.actions.len();
        while j < l
            invariant
                self.wf(),
                l == self.actions@.len(),
                j <= l,
                lines@ == spec_status_tail(*self, 0).subrange(
                    0,
                    spec_status_tail(*self, 0).len() - spec_status_tail(*self, j as int).len(),
                ),
                spec_status_tail(*self, 0).len() >= spec_status_tail(*self, j as int).len(),
                spec_status_tail(*self, 0) == lines@ + spec_status_tail(*self, j as int),
                spec_saved(*self) - spec_saved_from(*self, j as int) >= 0,
                total == sat_u64(spec_saved(*self) - spec_saved_from(*self, j as int)),
            decreases l - j,
        {
            proof {
                lemma_saved_from_nonneg(*self, j + 1);
            }
            lines.append("\n");
            let line = self.action_line(j);
            lines.append(line.as_str());
            let add: u64 = match &self.actions[j] {
                KernelAction::DELETE { target } => self.tree.nodes[*target].size(),
                _ => 0,
            };
            total = total.saturating_add(add);
            j = j + 1;
            proof {
                assert(spec_status_tail(*self, 0) =~= lines@ + spec_status_tail(*self, j as int));
                assert(lines@ =~= spec_status_tail(*self, 0).subrange(
                    0,
                    spec_status_tail(*self, 0).len() - spec_status_tail(*self, j as int).len(),
                ));
            }
        }
        let mut out = String::from_str("The following are marked for action: \n ");
        if l > 0 {
            let lv = crate::text::str_chars(lines.as_str());
            proof {
                assert(spec_status_tail(*self, l as int) == Seq::<char>::empty());
                assert(lines@ =~= spec_status_tail(*self, 0));
                assert(lv@.subrange(1, lv@.len() as int) =~= lines@.skip(1));
                assert(lv.len() == lv@.len());
                assert(lines@.len() >= 1);
            }
            let rest = crate::text::chars_range(&lv, 1, lv.len());
            out.append(rest.as_str());
        }
        out.append(" \nTotal space saved: ");
        let f = self.format_size(total);
        out.append(f.as_str());
        proof {
            assert(total == sat_u64(spec_saved(*self)));
            assert(out@ =~= spec_status(*self));
        }
        out
    }
}

/// Querying the pending queue is read-only and deterministic: two renderings
/// of the same journal state are identical.
pub proof fn lemma_status_idempotent(k: Kernel, r1: Seq<char>, r2: Seq<char>)
    requires
        r1 == spec_status(k),
        r2 == spec_status(k),
    ensures
        r1 == r2,
{
}

} // verus!

verus! {

/// The path accumulated by joining each component in turn onto `p0`; also
/// the path recorded by a queued create.
pub open spec fn spec_created_path(p0: Seq<char>, comps: Seq<Seq<char>>) -> Seq<char>
    decreases comps.len(),
{
    if comps.len() == 0 {
        p0
    } else {
        spec_created_path(spec_join(p0, comps[0]), comps.skip(1))
    }
}

/// Whether a component sequence is free of the relative steps `.` and
/// `..`, so that resolving it never leaves the chain being built.
pub open spec fn clean_comps(cs: Seq<Seq<char>>) -> bool {
    forall|k: int| 0 <= k < cs.len() ==> (#[trigger] cs[k]) != "."@ && cs[k] != ".."@
}

/// How synthesising nodes leaves a tree: existing nodes keep everything but
/// their child lists, new nodes are empty and unmarked, and directory size
/// sums stay intact.
pub open spec fn grows_preserving(t0: FsTree, t1: FsTree) -> bool {
    &&& t1.nodes@.len() >= t0.nodes@.len()
    &&& forall|i: int|
        0 <= i < t0.nodes@.len() ==> t1.nodes@[i] == (FileSystemNode {
            children: t1.nodes@[i].children,
            ..t0.nodes@[i]
        })
    &&& forall|i: int|
        t0.nodes@.len() <= i < t1.nodes@.len() ==> (#[trigger] t1.nodes@[i]).size == 0
            && !t1.nodes@[i].to_be_deleted
    &&& (crate::system::sizes_consistent(t0) ==> crate::system::sizes_consistent(t1))
}


/// How the journal looks after a create: one create is queued for the
/// joined path, the tree only grew by fresh empty nodes, and for a path of
/// plain components the created chain resolves below its starting node.
pub open spec fn create_post(
    k0: Kernel,
    k1: Kernel,
    node: usize,
    path: Seq<char>,
    is_file: bool,
) -> bool {
    let p0 = if spec_starts_with(path, seq!['/']) {
        k0.tree.nodes@[0].path@
    } else {
        k0.tree.nodes@[node as int].path@
    };
    let comps = spec_components(path);
    let start = if spec_starts_with(path, seq!['/']) {
        0
    } else {
        node
    };
    &&& grows_preserving(k0.tree, k1.tree)
    &&& k1.actions@.len() == k0.actions@.len() + 1
    &&& k1.actions@ == k0.actions@.push(k1.actions@.last())
    &&& (match k1.actions@.last() {
        KernelAction::CREATE { path: cp, is_file: cf } => cp@ == spec_created_path(p0, comps)
            && cf == is_file,
        _ => false,
    })
    &&& k1 == (Kernel { tree: k1.tree, actions: k1.actions, ..k0 })
    &&& k1.tree.nodes@.len() <= k0.tree.nodes@.len() + comps.len()
    &&& (forall|i: int|
        k0.tree.nodes@.len() <= i < k1.tree.nodes@.len() ==> ((
        #[trigger] k1.tree.nodes@[i]).is_file ==> is_file && i == k1.tree.nodes@.len() - 1))
    &&& (clean_comps(comps) ==> nav(k1.tree, start, comps) is Some)
    &&& (clean_comps(comps) && comps.len() > 0 ==> ({
        let m = nav(k1.tree, start, comps)->0 as int;
        m >= k0.tree.nodes@.len() ==> {
            &&& m == k1.tree.nodes@.len() - 1
            &&& k1.tree.nodes@[m].path@ == spec_created_path(p0, comps)
            &&& k1.tree.nodes@[m].name@ == comps.last()
            &&& k1.tree.nodes@[m].is_file == is_file
            &&& (comps.len() == 1 ==> k1.tree.nodes@[m].parent == Some(start)
                && k1.tree.nodes@[start as int].children@ == k0.tree.nodes@[
                start as int
            ].children@.push(m as usize))
        }
    }))
    &&& (clean_comps(comps) && nav(k0.tree, start, comps) is Some ==> k1.tree == k0.tree)
    &&& ((forall|k: int|
        0 <= k < comps.len() ==> (#[trigger] comps[k]) == "."@ || comps[k] == ".."@)
        ==> k1.tree == k0.tree)
}

impl Kernel {
    /// Resolves or synthesises the node chain for `path` below `node` (or
    /// below the root for an absolute path), creating missing directories
    /// as fresh size-zero nodes, and queues one create for the final path.
    pub fn create(&mut self, node: usize, path: String, is_file: bool)
        requires
            old(self).wf(),
            node < old(self).tree.nodes@.len(),
        ensures
            final(self).wf(),
            create_post(*old(self), *final(self), node, path@, is_file),
    {
        proof {
            reveal_strlit("/");
            reveal_strlit(".");
            reveal_strlit("..");
        }
        let ghost ot = old(self).tree;
        let slash = String::from_str("/");
        let dot = String::from_str(".");
        let dotdot = String::from_str("..");
        let comps = split_components(&path);
        let absolute = crate::text::starts_with(&path, &slash);
        let mut cur: usize;
        let mut path_so_far: String;
        if absolute {
            cur = 0;
            path_so_far = self.tree.nodes[0].path.clone();
        } else {
            cur = node;
            path_so_far = self.tree.nodes[node].path.clone();
        }
        let ghost p0 = path_so_far@;
        let ghost allcomps = comps.deep_view();
        let ghost start_idx = cur;
        let ghost n0 = self.tree.nodes@.len() as int;
        let ghost rank0 = self.tree.ranks@[start_idx as int];
        proof {
            assert(allcomps.skip(0) =~= allcomps);
            assert("/"@ =~= seq!['/']);
            assert(absolute == spec_starts_with(path@, seq!['/']));
            assert(allcomps.take(0) =~= Seq::<Seq<char>>::empty());
        }
        let n = comps.len();
        let mut i: usize = 0;
        while i < n
            invariant
                ot == old(self).tree,
                ot.wf(),
                self.wf(),
                i <= n,
                p0 == (if spec_starts_with(path@, seq!['/']) {
                    ot.nodes@[0].path@
                } else {
                    ot.nodes@[node as int].path@
                }),
                node < ot.nodes@.len(),
                n == allcomps.len(),
                allcomps == comps.deep_view(),
                n == comps@.len(),
                cur < self.tree.nodes@.len(),
                grows_preserving(ot, self.tree),
                spec_created_path(p0, allcomps) == spec_created_path(
                    path_so_far@,
                    allcomps.skip(i as int),
                ),
                start_idx < self.tree.nodes@.len(),
                start_idx == (if spec_starts_with(path@, seq!['/']) {
                    0
                } else {
                    node
                }),
                clean_comps(allcomps) ==> nav(self.tree, start_idx, allcomps.take(i as int))
                    == Some(cur),
                n0 == ot.nodes@.len(),
                rank0 == ot.ranks@[start_idx as int],
                self.tree.nodes@.len() <= n0 + i,
                forall|j: int|
                    n0 <= j < self.tree.nodes@.len() ==> ((#[trigger] self.tree.nodes@[j]).is_file
                        ==> is_file && i == n && j == self.tree.nodes@.len() - 1),
                clean_comps(allcomps) ==> self.tree.ranks@[cur as int] as int == rank0 as int + i,
                clean_comps(allcomps) ==> forall|j: int|
                    n0 <= j < self.tree.nodes@.len() ==> (#[trigger] self.tree.ranks@[j]) as int
                        <= rank0 as int + i,
                clean_comps(allcomps) ==> (cur as int >= n0 ==> {
                    &&& cur as int == self.tree.nodes@.len() - 1
                    &&& self.tree.nodes@[cur as int].children@.len() == 0
                    &&& self.tree.nodes@[cur as int].name@ == allcomps[i - 1]
                    &&& self.tree.nodes@[cur as int].path@ == path_so_far@
                    &&& self.tree.nodes@[cur as int].is_file == (i == n && is_file)
                    &&& (n == 1 ==> self.tree.nodes@[cur as int].parent == Some(start_idx)
                        && self.tree.nodes@[start_idx as int].children@ == ot.nodes@[
                        start_idx as int
                    ].children@.push(cur))
                }),
                clean_comps(allcomps) && nav(ot, start_idx, allcomps) is Some ==> self.tree == ot,
                (forall|k: int|
                    0 <= k < i ==> (#[trigger] allcomps[k]) == "."@ || allcomps[k] == ".."@)
                    ==> self.tree == ot,
                dot@ == "."@ && dotdot@ == ".."@,
                self.actions == old(self).actions,
                self.ai_suggestion == old(self).ai_suggestion,
                self.action_file == old(self).action_file,
                self.dry == old(self).dry,
            decreases n - i,
        {
            proof {
                assert(allcomps.skip(i as int)[0] == allcomps[i as int]);
                assert(allcomps[i as int] == comps@[i as int]@);
                assert(allcomps.skip(i as int).skip(1) =~= allcomps.skip(i + 1));
            }
            let joined = crate::text::join_path(&path_so_far, &comps[i]);
            path_so_far = joined;
            if crate::system::path_eq(&comps[i], &dotdot) {
                proof {
                    assert(allcomps[i as int] == ".."@);
                    assert(!clean_comps(allcomps));
                }
                let parent = self.tree.nodes[cur].get_parent();
                match parent {
                    Some(p) => {
                        proof {
                            assert(self.tree.wf_at(cur as int));
                        }
                        cur = p;
                    },
                    None => {},
                }
            } else if crate::system::path_eq(&comps[i], &dot) {
                proof {
                    assert(allcomps[i as int] == "."@);
                    assert(!clean_comps(allcomps));
                }
            } else {
                match self.tree.go_to(cur, &comps[i]) {
                    Some(c) => {
                        proof {
                            if clean_comps(allcomps) {
                                if cur as int >= n0 {
                                    // A freshly made node has no children, so
                                    // no lookup below it can succeed.
                                    assert(first_match_name(
                                        self.tree,
                                        self.tree.nodes@[cur as int].children@,
                                        allcomps[i as int],
                                    ) is None);
                                }
                                assert((cur as int) < n0);
                                assert(self.tree.wf_at(c as int));
                                if c as int >= n0 {
                                    assert(self.tree.ranks@[c as int] as int == rank0 as int + i
                                        + 1);
                                }
                                assert((c as int) < n0);
                                crate::system::lemma_nav_append(
                                    self.tree,
                                    start_idx,
                                    allcomps.take(i as int),
                                    allcomps[i as int],
                                );
                                assert(allcomps.take(i + 1) =~= allcomps.take(i as int).push(
                                    allcomps[i as int],
                                ));
                                assert(nav(self.tree, start_idx, allcomps.take(i + 1)) == Some(
                                    c,
                                ));
                            }
                        }
                        cur = c;
                    },
                    None => {
                        let ghost before = self.tree;
                        let node_is_file = i == n - 1 && is_file;
                        let c = self.tree.new_child(
                            cur,
                            comps[i].clone(),
                            path_so_far.clone(),
                            node_is_file,
                            0,
                        );
                        proof {
                            assert(before.nodes.len() == before.nodes@.len());
                            assert forall|ii: int|
                                0 <= ii < ot.nodes@.len() implies self.tree.nodes@[ii]
                                == (FileSystemNode {
                                children: self.tree.nodes@[ii].children,
                                ..ot.nodes@[ii]
                            }) by {
                                if ii != cur as int {
                                    assert(self.tree.nodes@[ii] == before.nodes@[ii]);
                                }
                            }
                            assert forall|ii: int|
                                ot.nodes@.len() <= ii < self.tree.nodes@.len() implies (
                            #[trigger] self.tree.nodes@[ii]).size == 0
                                && !self.tree.nodes@[ii].to_be_deleted by {
                                if ii < before.nodes@.len() {
                                    assert(self.tree.nodes@[ii] == (FileSystemNode {
                                        children: self.tree.nodes@[ii].children,
                                        ..before.nodes@[ii]
                                    }));
                                }
                            }
                            if crate::system::sizes_consistent(ot) {
                                crate::system::lemma_sizes_consistent_new_child(
                                    before,
                                    self.tree,
                                    cur as int,
                                    c as int,
                                );
                            }
                            if clean_comps(allcomps) && nav(ot, start_idx, allcomps) is Some {
                                // Every component of a fully resolvable path
                                // finds its child, so nothing is created.
                                crate::system::lemma_nav_decompose(
                                    ot,
                                    start_idx,
                                    allcomps,
                                    i as int,
                                );
                                assert(allcomps.skip(i as int)[0] == allcomps[i as int]);
                                assert(nav(ot, start_idx, allcomps) is None);
                            }
                            if clean_comps(allcomps) {
                                assert(before.nodes.len() == before.nodes@.len());
                                assert forall|ii: int|
                                    0 <= ii < before.nodes@.len() implies (
                                #[trigger] self.tree.nodes@[ii]).name@ == before.nodes@[ii].name@
                                    && self.tree.nodes@[ii].children@.len()
                                    >= before.nodes@[ii].children@.len()
                                    && self.tree.nodes@[ii].children@.take(
                                    before.nodes@[ii].children@.len() as int,
                                ) == before.nodes@[ii].children@ by {
                                    if ii == cur as int {
                                        assert(self.tree.nodes@[ii].children@.take(
                                            before.nodes@[ii].children@.len() as int,
                                        ) =~= before.nodes@[ii].children@);
                                    } else {
                                        assert(self.tree.nodes@[ii] == before.nodes@[ii]);
                                        assert(self.tree.nodes@[ii].children@.take(
                                            before.nodes@[ii].children@.len() as int,
                                        ) =~= before.nodes@[ii].children@);
                                    }
                                }
                                crate::system::lemma_nav_grow(
                                    &before,
                                    &self.tree,
                                    start_idx,
                                    allcomps.take(i as int),
                                );
                                assert(before.wf_at(cur as int));
                                crate::system::lemma_first_match_push(
                                    &before,
                                    &self.tree,
                                    before.nodes@[cur as int].children@,
                                    c,
                                    allcomps[i as int],
                                );
                                crate::system::lemma_nav_append(
                                    self.tree,
                                    start_idx,
                                    allcomps.take(i as int),
                                    allcomps[i as int],
                                );
                                assert(allcomps.take(i + 1) =~= allcomps.take(i as int).push(
                                    allcomps[i as int],
                                ));
                                assert(nav(self.tree, start_idx, allcomps.take(i + 1)) == Some(
                                    c,
                                ));
                                assert(self.tree.ranks@[c as int] as int == before.ranks@[
                                    cur as int
                                ] as int + 1);
                                assert forall|j: int|
                                    n0 <= j < self.tree.nodes@.len() implies (
                                #[trigger] self.tree.ranks@[j]) as int <= rank0 as int + i
                                    + 1 by {
                                    if j < before.nodes@.len() {
                                        assert(self.tree.ranks@[j] == before.ranks@[j]);
                                    }
                                }
                            }
                        }
                        cur = c;
                    },
                }
            }
            i = i + 1;
        }
        proof {
            assert(allcomps.skip(n as int) =~= Seq::<Seq<char>>::empty());
            assert(allcomps.take(n as int) =~= allcomps);
            assert(spec_created_path(path_so_far@, Seq::<Seq<char>>::empty()) == path_so_far@);
            assert(path_so_far@ == spec_created_path(p0, allcomps));
            assert(allcomps == spec_components(path@));
            assert(p0 == (if spec_starts_with(path@, seq!['/']) {
                old(self).tree.nodes@[0].path@
            } else {
                old(self).tree.nodes@[node as int].path@
            }));
        }
        self.actions.push_back(KernelAction::CREATE { path: path_so_far, is_file });
    }
}

} // verus!

verus! {


/// How the journal looks after a move of the node at `op` into the
/// directory named by `np`: one move is queued for the joined destination
/// path; the node leaves its old parent (whose aggregate drops by the moved
/// size), carries its new path and name, and hangs under the node that
/// `np` resolves to afterwards — created fresh when it was missing — whose
/// aggregate grew by the moved size. An unresolvable source and the root
/// change nothing.
pub open spec fn move_post(k0: Kernel, k1: Kernel, op: Seq<char>, np: Seq<char>) -> bool {
    let t0 = k0.tree;
    let root = t0.nodes@[0].path@;
    let src = nav(t0, 0, spec_components(spec_strip_prefix(op, root)));
    match src {
        None => k1 == k0,
        Some(x) => {
            if t0.nodes@[x as int].parent is None {
                k1 == k0
            } else {
                let xi = x as int;
                let p = t0.nodes@[xi].parent->0 as int;
                let nm = spec_basename(op);
                let fp = spec_join(np, nm);
                let xsize = t0.nodes@[xi].size;
                let psub = if t0.nodes@[p].size >= xsize {
                    (t0.nodes@[p].size - xsize) as u64
                } else {
                    0u64
                };
                &&& k1.actions@ == k0.actions@.push(k1.actions@.last())
                &&& (match k1.actions@.last() {
                    KernelAction::MOVE { original_path: o, new_path: n } => o@ == op && n@ == fp,
                    _ => false,
                })
                &&& k1.tree.nodes@.len() >= t0.nodes@.len()
                &&& k1.tree.nodes@[xi].path@ == fp
                &&& k1.tree.nodes@[xi].name@ == nm
                &&& k1.tree.nodes@[xi].size == xsize
                &&& k1.tree.nodes@[xi].is_file == t0.nodes@[xi].is_file
                &&& k1.tree.nodes@[xi].to_be_deleted == t0.nodes@[xi].to_be_deleted
                &&& k1.tree.nodes@[xi].parent is Some
                &&& ({
                    let d = k1.tree.nodes@[xi].parent->0 as int;
                    let base = if d == p {
                        psub
                    } else if d < t0.nodes@.len() {
                        t0.nodes@[d].size
                    } else {
                        0u64
                    };
                    &&& d != xi
                    &&& d < k1.tree.nodes@.len()
                    &&& nav(k1.tree, 0, spec_components(spec_strip_prefix(np, root))) == Some(
                        k1.tree.nodes@[xi].parent->0,
                    )
                    &&& k1.tree.nodes@[d].children@.contains(x)
                    &&& k1.tree.nodes@[d].size == (if base + xsize <= u64::MAX {
                        (base + xsize) as u64
                    } else {
                        u64::MAX
                    })
                    &&& (d != p ==> k1.tree.nodes@[p].size == psub)
                    &&& (d != p ==> !k1.tree.nodes@[p].children@.contains(x))
                    &&& forall|i: int|
                        0 <= i < t0.nodes@.len() && i != xi && i != p && i != d
                            ==> (#[trigger] k1.tree.nodes@[i]).path@ == t0.nodes@[i].path@
                            && k1.tree.nodes@[i].name@ == t0.nodes@[i].name@
                            && k1.tree.nodes@[i].size == t0.nodes@[i].size
                            && k1.tree.nodes@[i].is_file == t0.nodes@[i].is_file
                            && k1.tree.nodes@[i].to_be_deleted == t0.nodes@[i].to_be_deleted
                    &&& forall|i: int|
                        t0.nodes@.len() <= i < k1.tree.nodes@.len() ==> !(
                        #[trigger] k1.tree.nodes@[i]).is_file && !k1.tree.nodes@[i].to_be_deleted
                            && (i != d ==> k1.tree.nodes@[i].size == 0)
                })
                &&& k1 == (Kernel { tree: k1.tree, actions: k1.actions, ..k0 })
            }
        },
    }
}

impl Kernel {
    /// Relocates the node at `original_path`: detaches it from its parent
    /// (lowering that parent's aggregate), rewrites its path and name,
    /// resolves or creates the destination directory from `new_path`, and
    /// attaches the node there (raising that aggregate), queueing one move.
    /// An unresolvable source and the root change nothing.
    #[verifier::rlimit(100)]
    pub fn move_item(&mut self, original_path: String, new_path: String)
        requires
            old(self).wf(),
        ensures
            final(self).wf(),
            move_post(*old(self), *final(self), original_path@, new_path@),
    {
        let src = self.go_to(original_path.clone());
        let x = match src {
            None => {
                return ;
            },
            Some(x) => x,
        };
        let has_parent = match self.tree.nodes[x].get_parent() {
            Some(_) => true,
            None => false,
        };
        if !has_parent {
            return ;
        }
        let ghost t0 = old(self).tree;
        let ghost comps_op = spec_components(
            spec_strip_prefix(original_path@, t0.nodes@[0].path@),
        );
        proof {
            assert(t0.wf_at(x as int));
            assert(x != 0);
            if comps_op.len() == 0 {
                assert(nav(t0, 0, comps_op) == Some(0usize));
            }
            crate::system::lemma_nav_last_step(t0, 0, comps_op);
        }
        let ghost p = t0.nodes@[x as int].parent->0;
        self.tree.detach(x);
        let item_name = crate::text::basename(&original_path);
        let final_new_path = crate::text::join_path(&new_path, &item_name);
        let ghost t_mid = self.tree;
        self.tree.nodes[x].set_path(final_new_path.clone());
        self.tree.nodes[x].set_name(item_name);
        proof {
            crate::system::lemma_wf_same_structure(&t_mid, &self.tree);
            assert forall|ii: int, jj: int|
                0 <= ii < self.tree.nodes@.len() && 0 <= jj
                    < self.tree.nodes@[ii].children@.len() implies (
            #[trigger] self.tree.nodes@[ii].children@[jj]) != x by {
                assert(t_mid.nodes@[ii].children@ == self.tree.nodes@[ii].children@);
            }
        }
        let ghost tb = self.tree;
        // Resolve or create the destination directory, walking from the
        // root; the detached node sits in no child list, so the walk can
        // never enter its subtree and no cycle can form.
        let rel = strip_prefix(&new_path, &self.tree.nodes[0].path);
        let comps = split_components(&rel);
        let ghost allcomps = comps.deep_view();
        let mut cur: usize = 0;
        let mut path_so_far = self.tree.nodes[0].path.clone();
        let n = comps.len();
        let mut i: usize = 0;
        proof {
            assert(allcomps.take(0) =~= Seq::<Seq<char>>::empty());
        }
        while i < n
            invariant
                tb.wf(),
                self.tree.wf(),
                i <= n,
                n == allcomps.len(),
                allcomps == comps.deep_view(),
                n == comps@.len(),
                x < tb.nodes@.len(),
                cur < self.tree.nodes@.len(),
                crate::system::unlisted(self.tree, x),
                !self.tree.in_subtree(x as int, cur as int),
                nav(self.tree, 0, allcomps.take(i as int)) == Some(cur),
                self.tree.nodes@.len() >= tb.nodes@.len(),
                forall|ii: int|
                    0 <= ii < tb.nodes@.len() ==> (#[trigger] self.tree.nodes@[ii])
                        == (FileSystemNode {
                        children: self.tree.nodes@[ii].children,
                        ..tb.nodes@[ii]
                    }),
                forall|ii: int|
                    tb.nodes@.len() <= ii < self.tree.nodes@.len()
                        ==> (#[trigger] self.tree.nodes@[ii]).size == 0
                        && !self.tree.nodes@[ii].to_be_deleted
                        && !self.tree.nodes@[ii].is_file,
                self.actions == old(self).actions,
                self.ai_suggestion == old(self).ai_suggestion,
                self.action_file == old(self).action_file,
                self.dry == old(self).dry,
            decreases n - i,
        {
            proof {
                assert(allcomps[i as int] == comps@[i as int]@);
            }
            let joined = crate::text::join_path(&path_so_far, &comps[i]);
            path_so_far = joined;
            match self.tree.go_to(cur, &comps[i]) {
                Some(c) => {
                    proof {
                        assert(self.tree.wf_at(c as int));
                        crate::system::lemma_first_match_name_in(
                            &self.tree,
                            self.tree.nodes@[cur as int].children@,
                            allcomps[i as int],
                        );
                        let w = choose|w: int|
                            0 <= w < self.tree.nodes@[cur as int].children@.len()
                                && self.tree.nodes@[cur as int].children@[w] == c;
                        assert(c != x);
                        crate::system::lemma_nav_append(
                            self.tree,
                            0,
                            allcomps.take(i as int),
                            allcomps[i as int],
                        );
                        assert(allcomps.take(i + 1) =~= allcomps.take(i as int).push(
                            allcomps[i as int],
                        ));
                    }
                    cur = c;
                },
                None => {
                    let ghost before = self.tree;
                    let c = self.tree.new_child(
                        cur,
                        comps[i].clone(),
                        path_so_far.clone(),
                        false,
                        0,
                    );
                    proof {
                        assert(before.nodes.len() == before.nodes@.len());
                        assert(self.tree.nodes@[c as int].parent == Some(cur));
                        assert(self.tree.wf_at(c as int));
                        assert(c != x);
                        assert forall|ii: int, jj: int|
                            0 <= ii < self.tree.nodes@.len() && 0 <= jj
                                < self.tree.nodes@[ii].children@.len() implies (
                        #[trigger] self.tree.nodes@[ii].children@[jj]) != x by {
                            if ii == cur as int && jj == self.tree.nodes@[ii].children@.len()
                                - 1 {
                                assert(self.tree.nodes@[ii].children@[jj] == c);
                            } else {
                                assert(self.tree.nodes@[ii].children@[jj] == before.nodes@[
                                    ii
                                ].children@[jj]);
                            }
                        }
                        assert forall|ii: int|
                            0 <= ii < tb.nodes@.len() implies (#[trigger] self.tree.nodes@[ii])
                            == (FileSystemNode {
                            children: self.tree.nodes@[ii].children,
                            ..tb.nodes@[ii]
                        }) by {
                            if ii != cur as int {
                                assert(self.tree.nodes@[ii] == before.nodes@[ii]);
                            }
                        }
                        assert forall|ii: int|
                            tb.nodes@.len() <= ii < self.tree.nodes@.len() implies (
                        #[trigger] self.tree.nodes@[ii]).size == 0
                            && !self.tree.nodes@[ii].to_be_deleted
                            && !self.tree.nodes@[ii].is_file by {
                            if ii < before.nodes@.len() {
                                assert(self.tree.nodes@[ii] == (FileSystemNode {
                                    children: self.tree.nodes@[ii].children,
                                    ..before.nodes@[ii]
                                }));
                            }
                        }
                        assert forall|ii: int|
                            0 <= ii < before.nodes@.len() implies (
                        #[trigger] self.tree.nodes@[ii]).name@ == before.nodes@[ii].name@
                            && self.tree.nodes@[ii].children@.len() >= before.nodes@[
                            ii
                        ].children@.len() && self.tree.nodes@[ii].children@.take(
                            before.nodes@[ii].children@.len() as int,
                        ) == before.nodes@[ii].children@ by {
                            if ii == cur as int {
                                assert(self.tree.nodes@[ii].children@.take(
                                    before.nodes@[ii].children@.len() as int,
                                ) =~= before.nodes@[ii].children@);
                            } else {
                                assert(self.tree.nodes@[ii] == before.nodes@[ii]);
                                assert(self.tree.nodes@[ii].children@.take(
                                    before.nodes@[ii].children@.len() as int,
                                ) =~= before.nodes@[ii].children@);
                            }
                        }
                        crate::system::lemma_nav_grow(
                            &before,
                            &self.tree,
                            0,
                            allcomps.take(i as int),
                        );
                        assert(before.wf_at(cur as int));
                        assert forall|kk: int|
                            0 <= kk < before.nodes@[cur as int].children@.len() implies ((
                        #[trigger] before.nodes@[cur as int].children@[kk]) as int)
                            < before.nodes@.len() by {}
                        crate::system::lemma_first_match_push(
                            &before,
                            &self.tree,
                            before.nodes@[cur as int].children@,
                            c,
                            allcomps[i as int],
                        );
                        crate::system::lemma_nav_append(
                            self.tree,
                            0,
                            allcomps.take(i as int),
                            allcomps[i as int],
                        );
                        assert(allcomps.take(i + 1) =~= allcomps.take(i as int).push(
                            allcomps[i as int],
                        ));
                        assert(nav(self.tree, 0, allcomps.take(i + 1)) == Some(c));
                    }
                    cur = c;
                },
            }
            i = i + 1;
        }
        let d = cur;
        proof {
            assert(allcomps.take(n as int) =~= allcomps);
        }
        let ghost tw = self.tree;
        self.tree.attach(x, d);
        proof {
            let tf = self.tree;
            assert forall|ii: int|
                0 <= ii < tw.nodes@.len() implies (#[trigger] tf.nodes@[ii]).name@
                == tw.nodes@[ii].name@ && tf.nodes@[ii].children@.len() >= tw.nodes@[
                ii
            ].children@.len() && tf.nodes@[ii].children@.take(tw.nodes@[ii].children@.len() as int)
                == tw.nodes@[ii].children@ by {
                if ii == d as int {
                    assert(tf.nodes@[ii].children@.take(tw.nodes@[ii].children@.len() as int)
                        =~= tw.nodes@[ii].children@);
                } else if ii == x as int {
                    assert(tf.nodes@[ii].children@.take(tw.nodes@[ii].children@.len() as int)
                        =~= tw.nodes@[ii].children@);
                } else {
                    assert(tf.nodes@[ii] == tw.nodes@[ii]);
                    assert(tf.nodes@[ii].children@.take(tw.nodes@[ii].children@.len() as int)
                        =~= tw.nodes@[ii].children@);
                }
            }
            crate::system::lemma_nav_grow(&tw, &self.tree, 0, allcomps);
            assert(self.tree.nodes@[d as int].children@.last() == x);
            assert(self.tree.nodes@[d as int].children@.contains(x));
        }
        self.actions.push_back(KernelAction::MOVE { original_path, new_path: final_new_path });
    }
}

} // verus!

verus! {

/// The file-system work one queued action asks for at commit time; the
/// caller performs it and reports deletions back through `apply_deletion`.
pub enum CommitOp {
    CreateFile { path: String },
    CreateDir { path: String },
    DeleteFile { path: String, target: usize },
    DeleteDir { path: String, target: usize },
    Rename { original_path: String, new_path: String },
}

/// The audit line recorded for one committed action.
pub open spec fn spec_audit_line(t: FsTree, a: KernelAction) -> Seq<char> {
    match a {
        KernelAction::CREATE { path, is_file } => "CREATE "@ + path@,
        KernelAction::DELETE { target } => "DELETE "@ + (if (target as int) < t.n() {
            t.nodes@[target as int].path@
        } else {
            Seq::<char>::empty()
        }),
        KernelAction::MOVE { original_path, new_path } => "MOVE "@ + original_path@ + " > "@
            + new_path@,
    }
}

/// Whether `op` is the file-system work for action `a` against tree `t`.
pub open spec fn op_matches(t: FsTree, a: KernelAction, op: CommitOp) -> bool {
    match a {
        KernelAction::CREATE { path, is_file } => if is_file {
            op matches CommitOp::CreateFile { path: p } && p@ == path@
        } else {
            op matches CommitOp::CreateDir { path: p } && p@ == path@
        },
        KernelAction::DELETE { target } => {
            &&& (target as int) < t.n()
            &&& if t.nodes@[target as int].is_file {
                op matches CommitOp::DeleteFile { path: p, target: g } && p@ == t.nodes@[
                    target as int
                ].path@ && g == target
            } else {
                op matches CommitOp::DeleteDir { path: p, target: g } && p@ == t.nodes@[
                    target as int
                ].path@ && g == target
            }
        },
        KernelAction::MOVE { original_path, new_path } => op matches CommitOp::Rename {
            original_path: o,
            new_path: n,
        } && o@ == original_path@ && n@ == new_path@,
    }
}

impl Kernel {
    /// Drains the queue in first-in first-out order into the file-system
    /// work to perform (none under a dry run) and the audit lines to record
    /// (none unless the audit file was asked for). The in-memory tree is
    /// untouched here: deletions reach it through `apply_deletion` once the
    /// real removal succeeded.
    pub fn commit_actions(&mut self) -> (r: (Vec<CommitOp>, Vec<String>))
        requires
            old(self).wf(),
        ensures
            final(self).wf(),
            final(self).actions@.len() == 0,
            final(self).tree == old(self).tree,
            *final(self) == (Kernel { actions: final(self).actions, ..*old(self) }),
            if old(self).dry {
                r.0@.len() == 0
            } else {
                r.0@.len() == old(self).actions@.len() && forall|j: int|
                    0 <= j < r.0@.len() ==> op_matches(
                        old(self).tree,
                        old(self).actions@[j],
                        #[trigger] r.0@[j],
                    )
            },
            if old(self).action_file {
                r.1@.len() == old(self).actions@.len() && forall|j: int|
                    0 <= j < r.1@.len() ==> (#[trigger] r.1@[j])@ == spec_audit_line(
                        old(self).tree,
                        old(self).actions@[j],
                    )
            } else {
                r.1@.len() == 0
            },
    {
        proof {
            reveal_strlit("CREATE ");
            reveal_strlit("DELETE ");
            reveal_strlit("MOVE ");
            reveal_strlit(" > ");
        }
        let mut ops: Vec<CommitOp> = Vec::new();
        let mut audit: Vec<String> = Vec::new();
        let ghost acts = old(self).actions@;
        let mut j: usize = 0;
        let l = self.actions.len();
        while j < l
            invariant
                *self == *old(self),
                old(self).wf(),
                acts == old(self).actions@,
                l == acts.len(),
                j <= l,
                if old(self).dry {
                    ops@.len() == 0
                } else {
                    ops@.len() == j && forall|k: int|
                        0 <= k < j ==> op_matches(old(self).tree, acts[k], #[trigger] ops@[k])
                },
                if old(self).action_file {
                    audit@.len() == j && forall|k: int|
                        0 <= k < j ==> (#[trigger] audit@[k])@ == spec_audit_line(
                            old(self).tree,
                            acts[k],
                        )
                } else {
                    audit@.len() == 0
                },
            decreases l - j,
        {
            if !self.dry {
                let op = match &self.actions[j] {
                    KernelAction::CREATE { path, is_file } => {
                        if *is_file {
                            CommitOp::CreateFile { path: path.clone() }
                        } else {
                            CommitOp::CreateDir { path: path.clone() }
                        }
                    },
                    KernelAction::DELETE { target } => {
                        if self.tree.nodes[*target].is_file() {
                            CommitOp::DeleteFile {
                                path: self.tree.nodes[*target].path.clone(),
                                target: *target,
                            }
                        } else {
                            CommitOp::DeleteDir {
                                path: self.tree.nodes[*target].path.clone(),
                                target: *target,
                            }
                        }
                    },
                    KernelAction::MOVE { original_path, new_path } => CommitOp::Rename {
                        original_path: original_path.clone(),
                        new_path: new_path.clone(),
                    },
                };
                ops.push(op);
            }
            if self.action_file {
                let mut line: String;
                match &self.actions[j] {
                    KernelAction::CREATE { path, is_file: _ } => {
                        line = String::from_str("CREATE ");
                        line.append(path.as_str());
                    },
                    KernelAction::DELETE { target } => {
                        line = String::from_str("DELETE ");
                        line.append(self.tree.nodes[*target].get_path());
                    },
                    KernelAction::MOVE { original_path, new_path } => {
                        line = String::from_str("MOVE ");
                        line.append(original_path.as_str());
                        line.append(" > ");
                        line.append(new_path.as_str());
                    },
                }
                proof {
                    assert(line@ =~= spec_audit_line(old(self).tree, acts[j as int]));
                }
                audit.push(line);
            }
            j = j + 1;
        }
        self.actions.clear();
        (ops, audit)
    }

    /// Applies a successful real deletion to the mirror: a directory's
    /// whole subtree is released first (every child list in it drained),
    /// then the node itself is unlinked from its parent, whose aggregate
    /// drops by the deleted size. The node's own record — its stale parent
    /// back-reference included — stays as it was.
    pub fn apply_deletion(&mut self, target: usize)
        requires
            old(self).wf(),
            target < old(self).tree.nodes@.len(),
        ensures
            final(self).wf(),
            final(self).tree.nodes@.len() == old(self).tree.nodes@.len(),
            *final(self) == (Kernel { tree: final(self).tree, ..*old(self) }),
            ({
                let t0 = old(self).tree;
                let t1 = final(self).tree;
                let xi = target as int;
                &&& t1.nodes@[xi].parent == t0.nodes@[xi].parent
                &&& (t0.nodes@[xi].parent matches Some(p) ==> {
                    let pi = p as int;
                    if t0.nodes@[pi].children@.contains(target) {
                        &&& !t1.nodes@[pi].children@.contains(target)
                        &&& t1.nodes@[pi].size == (if t0.nodes@[pi].size >= t0.nodes@[xi].size {
                            (t0.nodes@[pi].size - t0.nodes@[xi].size) as u64
                        } else {
                            0u64
                        })
                        &&& forall|i: int|
                            0 <= i < t0.nodes@.len() && !t0.in_subtree(xi, i) && i != pi
                                ==> #[trigger] t1.nodes@[i] == t0.nodes@[i]
                    } else {
                        forall|i: int|
                            0 <= i < t0.nodes@.len() && !t0.in_subtree(xi, i)
                                ==> #[trigger] t1.nodes@[i] == t0.nodes@[i]
                    }
                })
                &&& (!t0.nodes@[xi].is_file ==> forall|i: int|
                    0 <= i < t0.nodes@.len() && t0.in_subtree(xi, i)
                        ==> (#[trigger] t1.nodes@[i]).children@ == Seq::<usize>::empty()
                        && t1.nodes@[i] == (FileSystemNode {
                        children: t1.nodes@[i].children,
                        ..t0.nodes@[i]
                    }))
                &&& (t0.nodes@[xi].parent is None && t0.nodes@[xi].is_file ==> t1 == t0)
            }),
    {
        let ghost t0 = old(self).tree;
        let ghost xi = target as int;
        proof {
            if t0.nodes@[xi].parent is Some {
                let pi = t0.nodes@[xi].parent->0 as int;
                assert(t0.wf_at(xi));
                if t0.in_subtree(xi, pi) {
                    crate::system::lemma_subtree_rank(&t0, xi, pi);
                    assert(false);
                }
            }
        }
        let is_file = self.tree.nodes[target].is_file();
        if is_file {
            crate::system::disown(&mut self.tree, target);
            proof {
                match t0.nodes@[xi].parent {
                    Some(p) => {
                        let pi = p as int;
                        if t0.nodes@[pi].children@.contains(target) {
                            assert forall|i: int|
                                0 <= i < t0.nodes@.len() && !t0.in_subtree(xi, i) && i != pi
                                    implies #[trigger] self.tree.nodes@[i] == t0.nodes@[i] by {
                                assert(i != xi);
                            }
                        }
                    },
                    None => {},
                }
            }
        } else {
            crate::system::prune(&mut self.tree, target);
            let ghost tm = self.tree;
            crate::system::disown(&mut self.tree, target);
            proof {
                assert(t0.in_subtree(xi, xi));
                match t0.nodes@[xi].parent {
                    Some(p) => {
                        let pi = p as int;
                        assert(tm.nodes@[xi] == (FileSystemNode {
                            children: tm.nodes@[xi].children,
                            ..t0.nodes@[xi]
                        }));
                        assert(tm.nodes@[xi].parent == t0.nodes@[xi].parent);
                        assert(!t0.in_subtree(xi, pi));
                        assert(tm.nodes@[pi] == t0.nodes@[pi]);
                        assert(tm.nodes@[xi].size == t0.nodes@[xi].size);
                        if t0.nodes@[pi].children@.contains(target) {
                            assert forall|i: int|
                                0 <= i < t0.nodes@.len() && !t0.in_subtree(xi, i) && i != pi
                                    implies #[trigger] self.tree.nodes@[i] == t0.nodes@[i] by {
                                assert(tm.nodes@[i] == t0.nodes@[i]);
                                assert(i != xi);
                            }
                        }
                        assert forall|i: int|
                            0 <= i < t0.nodes@.len() && t0.in_subtree(xi, i) implies (
                        #[trigger] self.tree.nodes@[i]).children@ == Seq::<usize>::empty()
                            && self.tree.nodes@[i] == (FileSystemNode {
                            children: self.tree.nodes@[i].children,
                            ..t0.nodes@[i]
                        }) by {
                            assert(i != pi);
                            assert(self.tree.nodes@[i] == tm.nodes@[i]);
                        }
                    },
                    None => {
                        assert forall|i: int|
                            0 <= i < t0.nodes@.len() && t0.in_subtree(xi, i) implies (
                        #[trigger] self.tree.nodes@[i]).children@ == Seq::<usize>::empty()
                            && self.tree.nodes@[i] == (FileSystemNode {
                            children: self.tree.nodes@[i].children,
                            ..t0.nodes@[i]
                        }) by {
                            assert(self.tree.nodes@[i] == tm.nodes@[i]);
                        }
                    },
                }
            }
        }
    }

    /// The full path of the child of `node` at `index`, for handing to the
    /// host's default-open mechanism; nothing for an index out of range.
    pub fn open_target(&self, node: usize, index: usize) -> (r: Option<String>)
        requires
            self.wf(),
            node < self.tree.nodes@.len(),
        ensures
            ({
                let cs = self.tree.nodes@[node as int].children@;
                if index < cs.len() {
                    r is Some && r->0@ == self.tree.nodes@[cs[index as int] as int].path@
                } else {
                    r is None
                }
            }),
    {
        proof {
            assert(self.tree.wf_at(node as int));
        }
        match self.tree.nodes[node].get_child(index) {
            Some(c) => Some(self.tree.nodes[c].path.clone()),
            None => None,
        }
    }
}

} // verus!


verus! {

use crate::ai::AiCmdView;

/// One suggestion replayed as the corresponding journal call: a delete is
/// resolved to a child position of `node` first (and skipped when its path
/// matches no child), a move and a directory creation are replayed as
/// given.
pub open spec fn step_applied(k0: Kernel, k1: Kernel, node: usize, cmd: AiCmdView) -> bool {
    match cmd {
        AiCmdView::Delete { path } => match first_path_index(
            k0.tree,
            k0.tree.nodes@[node as int].children@,
            path,
            0,
        ) {
            Some(i) => mark_post(k0, k1, node, i as usize),
            None => k1 == k0,
        },
        AiCmdView::Move { original_location, new_location } => move_post(
            k0,
            k1,
            original_location,
            new_location,
        ),
        AiCmdView::CreateDir { path } => create_post(k0, k1, node, path, false),
    }
}

/// All suggestions replayed in order, through intermediate journal states.
pub open spec fn suggestions_applied(
    k0: Kernel,
    k1: Kernel,
    node: usize,
    cmds: Seq<AiCmdView>,
) -> bool
    decreases cmds.len(),
{
    if cmds.len() == 0 {
        k1 == k0
    } else {
        exists|km: Kernel|
            #[trigger] step_applied(k0, km, node, cmds[0]) && suggestions_applied(
                km,
                k1,
                node,
                cmds.skip(1),
            )
    }
}

/// Extending a replayed chain by one more step.
proof fn lemma_suggestions_applied_snoc(
    k0: Kernel,
    km: Kernel,
    k1: Kernel,
    node: usize,
    cs: Seq<AiCmdView>,
    c: AiCmdView,
)
    requires
        suggestions_applied(k0, km, node, cs),
        step_applied(km, k1, node, c),
    ensures
        suggestions_applied(k0, k1, node, cs.push(c)),
    decreases cs.len(),
{
    let b = cs.push(c);
    if cs.len() == 0 {
        assert(b[0] == c);
        assert(b.skip(1) =~= Seq::<AiCmdView>::empty());
        assert(step_applied(k0, k1, node, b[0]) && suggestions_applied(
            k1,
            k1,
            node,
            b.skip(1),
        ));
    } else {
        let m = choose|m: Kernel|
            #[trigger] step_applied(k0, m, node, cs[0]) && suggestions_applied(
                m,
                km,
                node,
                cs.skip(1),
            );
        lemma_suggestions_applied_snoc(m, km, k1, node, cs.skip(1), c);
        assert(b[0] == cs[0]);
        assert(b.skip(1) =~= cs.skip(1).push(c));
        assert(step_applied(k0, m, node, b[0]) && suggestions_applied(m, k1, node, b.skip(1)));
    }
}

} // verus!

verus! {

impl Kernel {
    /// Replays the stored AI suggestion text as journal calls: deletes are
    /// resolved to a child position of `node` first, moves and directory
    /// creations are replayed as given. A payload that does not parse, or
    /// parses to nothing, changes nothing at all.
    pub fn convert_suggestions(&mut self, node: usize)
        requires
            old(self).wf(),
            node < old(self).tree.nodes@.len(),
        ensures
            final(self).wf(),
            final(self).tree.nodes@.len() >= old(self).tree.nodes@.len(),
            *final(self) == (Kernel {
                tree: final(self).tree,
                actions: final(self).actions,
                ..*old(self)
            }),
            ({
                match crate::ai::spec_parse_ai(old(self).ai_suggestion@) {
                    None => *final(self) == *old(self),
                    Some(vs) => suggestions_applied(*old(self), *final(self), node, vs),
                }
            }),
    {
        let sugg = self.get_suggestion();
        let mut commands = crate::ai::parse_ai(sugg.as_str());
        if commands.len() == 0 {
            proof {
                if crate::ai::spec_parse_ai(old(self).ai_suggestion@) is Some {
                    let vs = crate::ai::spec_parse_ai(old(self).ai_suggestion@)->0;
                    assert(vs.len() == 0);
                    assert(suggestions_applied(*old(self), *self, node, vs));
                }
            }
            return ;
        }
        let ghost vs = crate::ai::spec_parse_ai(old(self).ai_suggestion@)->0;
        let ghost done: int = 0;
        proof {
            assert(vs.take(0) =~= Seq::<AiCmdView>::empty());
        }
        while commands.len() > 0
            invariant
                self.wf(),
                node < self.tree.nodes@.len(),
                self.tree.nodes@.len() >= old(self).tree.nodes@.len(),
                self.ai_suggestion == old(self).ai_suggestion,
                self.action_file == old(self).action_file,
                self.dry == old(self).dry,
                crate::ai::spec_parse_ai(old(self).ai_suggestion@) == Some(vs),
                0 <= done <= vs.len(),
                commands@.len() == vs.len() - done,
                forall|j: int|
                    0 <= j < commands@.len() ==> crate::ai::cmd_matches(
                        #[trigger] commands@[j],
                        vs[done + j],
                    ),
                suggestions_applied(*old(self), *self, node, vs.take(done)),
            decreases commands@.len(),
        {
            let ghost cpre = commands@;
            let ghost kpre = *self;
            let cmd = commands.remove(0);
            proof {
                assert(cpre[0] == cmd);
                assert(commands@ =~= cpre.skip(1));
                assert forall|j: int| 0 <= j < commands@.len() implies crate::ai::cmd_matches(
                    #[trigger] commands@[j],
                    vs[done + 1 + j],
                ) by {
                    assert(commands@[j] == cpre[j + 1]);
                }
                assert(crate::ai::cmd_matches(cmd, vs[done]));
            }
            match cmd {
                crate::ai::AICommand::DeleteFile { delete_file } => {
                    let ghost pathv = delete_file.path@;
                    let index = self.get_index(node, delete_file.path);
                    match index {
                        Some(i) => {
                            self.mark_for_deletion(node, i);
                        },
                        None => {},
                    }
                    proof {
                        assert(step_applied(kpre, *self, node, vs[done]));
                    }
                },
                crate::ai::AICommand::MoveItem { move_item } => {
                    self.move_item(move_item.original_location, move_item.new_location);
                    proof {
                        assert(step_applied(kpre, *self, node, vs[done]));
                    }
                },
                crate::ai::AICommand::CreateDirectory { create_directory } => {
                    self.create(node, create_directory.path, false);
                    proof {
                        assert(step_applied(kpre, *self, node, vs[done]));
                    }
                },
            }
            proof {
                lemma_suggestions_applied_snoc(
                    *old(self),
                    kpre,
                    *self,
                    node,
                    vs.take(done),
                    vs[done],
                );
                assert(vs.take(done + 1) =~= vs.take(done).push(vs[done]));
            }
            proof {
                done = done + 1;
            }
        }
        proof {
            assert(vs.take(done) =~= vs);
        }
    }
}

} // verus!

//! The filesystem model: a tree of named nodes, the size probe over it, and
//! the scanner that collects every directory matching a target name without
//! descending into a match.

use vstd::prelude::*;

use crate::app::Registry;

verus! {

/// What a filesystem node is: a regular file with a byte length, or a
/// directory with an ordered list of children.
pub enum FsNodeKind {
    File { size: u64 },
    Dir { children: Vec<FsNode> },
}

/// One node of the modelled tree: its base name and its kind.
pub struct FsNode {
    pub name: String,
    pub kind: FsNodeKind,
}

/// A usable base name: nonempty and free of the path separator.
pub open spec fn wf_name(s: Seq<char>) -> bool {
    &&& s.len() > 0
    &&& forall|k: int| 0 <= k < s.len() ==> s[k] != '/'
}

/// A well-formed tree: every node's name is usable.
pub open spec fn wf_node(n: FsNode) -> bool
    decreases n,
{
    &&& wf_name(n.name@)
    &&& match n.kind {
        FsNodeKind::File { size } => true,
        FsNodeKind::Dir { children } => wf_children(children@),
    }
}

pub open spec fn wf_children(s: Seq<FsNode>) -> bool
    decreases s,
{
    if s.len() == 0 {
        true
    } else {
        wf_children(s.subrange(0, s.len() - 1)) && wf_node(s[s.len() - 1])
    }
}

/// The exact size of a subtree: a file contributes its byte length, a
/// directory the sum over its children.
pub open spec fn node_size(n: FsNode) -> nat
    decreases n,
{
    match n.kind {
        FsNodeKind::File { size } => size as nat,
        FsNodeKind::Dir { children } => children_size(children@),
    }
}

pub open spec fn children_size(s: Seq<FsNode>) -> nat
    decreases s,
{
    if s.len() == 0 {
        0
    } else {
        children_size(s.subrange(0, s.len() - 1)) + node_size(s[s.len() - 1])
    }
}

/// The height of a node: zero for a file, one more than the tallest child
/// for a directory.  It serves as the termination measure of the executable
/// traversals.
pub open spec fn node_height(n: FsNode) -> nat
    decreases n,
{
    match n.kind {
        FsNodeKind::File { size } => 0,
        FsNodeKind::Dir { children } => 1 + children_height(children@),
    }
}

pub open spec fn children_height(s: Seq<FsNode>) -> nat
    decreases s,
{
    if s.len() == 0 {
        0
    } else {
        let rest = children_height(s.subrange(0, s.len() - 1));
        let h = node_height(s[s.len() - 1]);
        if h > rest {
            h
        } else {
            rest
        }
    }
}

pub proof fn lemma_child_height(s: Seq<FsNode>, i: int)
    requires
        0 <= i < s.len(),
    ensures
        node_height(s[i]) <= children_height(s),
    decreases s.len(),
{
    if i < s.len() - 1 {
        lemma_child_height(s.subrange(0, s.len() - 1), i);
        assert(s.subrange(0, s.len() - 1)[i] == s[i]);
    }
}

/// The measured size of a subtree: the exact size, capped at what a `u64`
/// can carry.
pub open spec fn measured_size(n: FsNode) -> u64 {
    if node_size(n) > u64::MAX {
        u64::MAX
    } else {
        node_size(n) as u64
    }
}

/// Law: the size of a directory is the sum of the sizes of its immediate
/// children, stated against an independent fold over the child list.
pub proof fn lemma_children_size_is_sum(s: Seq<FsNode>)
    ensures
        children_size(s) == s.fold_left(0, |acc: int, n: FsNode| acc + node_size(n)),
    decreases s.len(),
{
    if s.len() > 0 {
        lemma_children_size_is_sum(s.drop_last());
        assert(s.drop_last() == s.subrange(0, s.len() - 1));
    }
}

/// Computes the measured size of a subtree: files contribute their length,
/// directories the sum over their children, saturating at `u64::MAX`.
pub fn recursive_size(n: &FsNode) -> (r: u64)
    ensures
        r == measured_size(*n),
    decreases node_height(*n),
{
    match &n.kind {
        FsNodeKind::File { size } => *size,
        FsNodeKind::Dir { children } => {
            let mut acc: u64 = 0;
            let mut i: usize = 0;
            let ghost cs = children@;
            while i < children.len()
                invariant
                    i <= cs.len(),
                    cs == children@,
                    n.kind matches FsNodeKind::Dir { children: c } && c@ == cs,
                    acc == if children_size(cs.subrange(0, i as int)) > u64::MAX {
                        u64::MAX
                    } else {
                        children_size(cs.subrange(0, i as int)) as u64
                    },
                decreases cs.len() - i,
            {
                proof {
                    lemma_child_height(children@, i as int);
                    assert(node_height(*n) == 1 + children_height(children@));
                }
                let c = recursive_size(&children[i]);
                proof {
                    assert(cs.subrange(0, i + 1).subrange(0, i as int) =~= cs.subrange(0, i as int));
                    assert(cs.subrange(0, i + 1)[i as int] == cs[i as int]);
                }
                if acc > u64::MAX - c {
                    acc = u64::MAX;
                } else {
                    acc = acc + c;
                }
                i = i + 1;
            }
            proof {
                assert(cs.subrange(0, cs.len() as int) =~= cs);
            }
            acc
        },
    }
}

/// The matches that a scan of the node at `path` emits, in traversal
/// order: a directory whose name equals the target becomes one match, with
/// its measured size, and is not descended into; any other directory is
/// descended; files emit nothing.
pub open spec fn scan_matches(n: FsNode, path: Seq<char>, target: Seq<char>) -> Seq<
    (Seq<char>, u64),
>
    decreases n,
{
    match n.kind {
        FsNodeKind::File { size } => Seq::empty(),
        FsNodeKind::Dir { children } => if n.name@ == target {
            seq![(path, measured_size(n))]
        } else {
            scan_children(children@, path, target)
        },
    }
}

pub open spec fn scan_children(s: Seq<FsNode>, parent: Seq<char>, target: Seq<char>) -> Seq<
    (Seq<char>, u64),
>
    decreases s,
{
    if s.len() == 0 {
        Seq::empty()
    } else {
        scan_children(s.subrange(0, s.len() - 1), parent, target) + scan_matches(
            s[s.len() - 1],
            parent + seq!['/'] + s[s.len() - 1].name@,
            target,
        )
    }
}

/// The matches of the children of `s` from position `i` on.
pub open spec fn scan_children_from(
    s: Seq<FsNode>,
    parent: Seq<char>,
    target: Seq<char>,
    i: int,
) -> Seq<(Seq<char>, u64)>
    decreases s.len() - i,
{
    if i < 0 || i >= s.len() {
        Seq::empty()
    } else {
        scan_matches(s[i], parent + seq!['/'] + s[i].name@, target) + scan_children_from(
            s,
            parent,
            target,
            i + 1,
        )
    }
}

proof fn lemma_scan_children_split(s: Seq<FsNode>, parent: Seq<char>, target: Seq<char>, k: int)
    requires
        0 <= k <= s.len(),
    ensures
        scan_children(s.subrange(0, k), parent, target) + scan_children_from(s, parent, target, k)
            == scan_children(s, parent, target),
    decreases s.len() - k,
{
    if k == s.len() {
        assert(s.subrange(0, k) =~= s);
        assert(scan_children(s.subrange(0, k), parent, target) + Seq::<(Seq<char>, u64)>::empty()
            =~= scan_children(s.subrange(0, k), parent, target));
    } else {
        lemma_scan_children_split(s, parent, target, k + 1);
        let pre1 = s.subrange(0, k + 1);
        assert(pre1.subrange(0, pre1.len() - 1) =~= s.subrange(0, k));
        assert(pre1[pre1.len() - 1] == s[k]);
        assert(scan_children(pre1, parent, target) == scan_children(s.subrange(0, k), parent, target)
            + scan_matches(s[k], parent + seq!['/'] + s[k].name@, target));
        assert(scan_children(s.subrange(0, k), parent, target) + scan_children_from(
            s,
            parent,
            target,
            k,
        ) =~= (scan_children(s.subrange(0, k), parent, target) + scan_matches(
            s[k],
            parent + seq!['/'] + s[k].name@,
            target,
        )) + scan_children_from(s, parent, target, k + 1));
    }
}

/// The number of nodes in a subtree, the root included.
pub open spec fn node_count(n: FsNode) -> nat
    decreases n,
{
    match n.kind {
        FsNodeKind::File { size } => 1,
        FsNodeKind::Dir { children } => 1 + children_count(children@),
    }
}

pub open spec fn children_count(s: Seq<FsNode>) -> nat
    decreases s,
{
    if s.len() == 0 {
        0
    } else {
        children_count(s.subrange(0, s.len() - 1)) + node_count(s[s.len() - 1])
    }
}

/// A scan emits at most one match per node, so the identifier budget that
/// `get_files` asks for is at most the node count of the tree.
pub proof fn lemma_scan_count_le_node_count(n: FsNode, path: Seq<char>, target: Seq<char>)
    ensures
        scan_matches(n, path, target).len() <= node_count(n),
    decreases node_height(n), 1nat, 0nat,
{
    match n.kind {
        FsNodeKind::File { size } => {},
        FsNodeKind::Dir { children } => {
            if n.name@ != target {
                assert(node_height(n) == 1 + children_height(children@));
                lemma_scan_children_count(children@, path, target);
            }
        },
    }
}

proof fn lemma_scan_children_count(s: Seq<FsNode>, parent: Seq<char>, target: Seq<char>)
    ensures
        scan_children(s, parent, target).len() <= children_count(s),
    decreases children_height(s) + 1, 0nat, s.len(),
{
    if s.len() > 0 {
        let pre = s.subrange(0, s.len() - 1);
        let c = s[s.len() - 1];
        assert(children_height(pre) <= children_height(s));
        lemma_scan_children_count(pre, parent, target);
        assert(node_height(c) <= children_height(s));
        lemma_scan_count_le_node_count(c, parent + seq!['/'] + c.name@, target);
    }
}

/// `a` lies strictly beneath `b`: `b` is a proper prefix of `a`, closed by
/// a path separator.
pub open spec fn is_strict_subpath(a: Seq<char>, b: Seq<char>) -> bool {
    &&& a.len() > b.len()
    &&& a.subrange(0, b.len() as int) == b
    &&& a[b.len() as int] == '/'
}

/// `q` ends in the path component `c`: a separator, then `c`, closes it.
pub open spec fn ends_with_component(q: Seq<char>, c: Seq<char>) -> bool {
    &&& q.len() > c.len()
    &&& q[q.len() - c.len() - 1] == '/'
    &&& q.subrange(q.len() - c.len(), q.len() as int) == c
}

proof fn lemma_subpath_trans(a: Seq<char>, b: Seq<char>, c: Seq<char>)
    requires
        is_strict_subpath(a, b),
        is_strict_subpath(b, c),
    ensures
        is_strict_subpath(a, c),
{
    assert forall|t: int| 0 <= t < b.len() implies a[t] == b[t] by {
        assert(a.subrange(0, b.len() as int)[t] == a[t]);
    }
    assert(a.subrange(0, c.len() as int) =~= c);
}

proof fn lemma_child_path_subpath(path: Seq<char>, name: Seq<char>)
    ensures
        is_strict_subpath(path + seq!['/'] + name, path),
{
    let q = path + seq!['/'] + name;
    assert(q.subrange(0, path.len() as int) =~= path);
    assert(q[path.len() as int] == '/');
}

proof fn lemma_child_path_ends_with(path: Seq<char>, name: Seq<char>)
    ensures
        ends_with_component(path + seq!['/'] + name, name),
{
    let q = path + seq!['/'] + name;
    assert(q[q.len() - name.len() - 1] == '/');
    assert(q.subrange(q.len() - name.len(), q.len() as int) =~= name);
}

proof fn lemma_child_path_component_unique(path: Seq<char>, name: Seq<char>, target: Seq<char>)
    requires
        wf_name(name),
        wf_name(target),
        name != target,
    ensures
        !ends_with_component(path + seq!['/'] + name, target),
{
    let q = path + seq!['/'] + name;
    if ends_with_component(q, target) {
        if target.len() < name.len() {
            let p = q.len() - target.len() - 1;
            assert(q[p] == name[p - path.len() - 1]);
            assert(q[p] != '/');
        } else if target.len() == name.len() {
            assert(q.subrange(q.len() - target.len(), q.len() as int) =~= name);
            assert(name == target);
        } else {
            let off = q.len() - target.len();
            assert(off <= path.len());
            assert(target[path.len() - off] == q[path.len() as int]);
            assert(target[path.len() - off] == '/');
        }
    }
}

proof fn lemma_wf_children_index(s: Seq<FsNode>, i: int)
    requires
        wf_children(s),
        0 <= i < s.len(),
    ensures
        wf_node(s[i]),
    decreases s.len(),
{
    if i < s.len() - 1 {
        lemma_wf_children_index(s.subrange(0, s.len() - 1), i);
        assert(s.subrange(0, s.len() - 1)[i] == s[i]);
    }
}

proof fn lemma_scan_node_props(n: FsNode, path: Seq<char>, target: Seq<char>)
    requires
        wf_node(n),
        wf_name(target),
    ensures
        ({
            let m = scan_matches(n, path, target);
            &&& (n.kind is Dir && n.name@ == target) ==> m == seq![(path, measured_size(n))]
            &&& !(n.kind is Dir && n.name@ == target) ==> (forall|k: int|
                0 <= k < m.len() ==> is_strict_subpath(#[trigger] m[k].0, path)
                    && ends_with_component(m[k].0, target))
            &&& (forall|k: int, r: Seq<char>|
                0 <= k < m.len() && #[trigger] is_strict_subpath(m[k].0, r) && is_strict_subpath(
                    r,
                    path,
                ) ==> !ends_with_component(r, target))
        }),
    decreases node_height(n), 1nat, 0nat,
{
    let m = scan_matches(n, path, target);
    match n.kind {
        FsNodeKind::File { size } => {
            assert(m =~= Seq::<(Seq<char>, u64)>::empty());
        },
        FsNodeKind::Dir { children } => {
            if n.name@ == target {
                assert forall|k: int, r: Seq<char>|
                    0 <= k < m.len() && #[trigger] is_strict_subpath(m[k].0, r)
                        && is_strict_subpath(r, path) implies !ends_with_component(r, target) by {
                    assert(m[k].0 == path);
                    assert(r.len() < path.len() && r.len() > path.len());
                }
            } else {
                assert(node_height(n) == 1 + children_height(children@));
                lemma_scan_children_props(children@, path, target);
                let mc = scan_children(children@, path, target);
                assert(m == mc);
                assert forall|k: int| 0 <= k < m.len() implies is_strict_subpath(
                    #[trigger] m[k].0,
                    path,
                ) && ends_with_component(m[k].0, target) by {
                    assert(is_strict_subpath(mc[k].0, path) && ends_with_component(
                        mc[k].0,
                        target,
                    ));
                }
                assert forall|k: int, r: Seq<char>|
                    0 <= k < m.len() && #[trigger] is_strict_subpath(m[k].0, r)
                        && is_strict_subpath(r, path) implies !ends_with_component(r, target) by {
                    assert(is_strict_subpath(mc[k].0, r));
                }
            }
        },
    }
}

proof fn lemma_scan_children_props(s: Seq<FsNode>, path: Seq<char>, target: Seq<char>)
    requires
        wf_children(s),
        wf_name(target),
    ensures
        ({
            let m = scan_children(s, path, target);
            &&& (forall|k: int|
                0 <= k < m.len() ==> is_strict_subpath(#[trigger] m[k].0, path)
                    && ends_with_component(m[k].0, target))
            &&& (forall|k: int, r: Seq<char>|
                0 <= k < m.len() && #[trigger] is_strict_subpath(m[k].0, r) && is_strict_subpath(
                    r,
                    path,
                ) ==> !ends_with_component(r, target))
        }),
    decreases children_height(s) + 1, 0nat, s.len(),
{
    if s.len() == 0 {
    } else {
        let pre = s.subrange(0, s.len() - 1);
        let c = s[s.len() - 1];
        let pc = path + seq!['/'] + c.name@;
        let mp = scan_children(pre, path, target);
        let mc = scan_matches(c, pc, target);
        let m = scan_children(s, path, target);
        assert(m == mp + mc);
        assert(children_height(pre) <= children_height(s));
        lemma_scan_children_props(pre, path, target);
        assert(node_height(c) <= children_height(s));
        assert(wf_node(c));
        lemma_scan_node_props(c, pc, target);
        lemma_child_path_subpath(path, c.name@);
        let c_matched = c.kind is Dir && c.name@ == target;
        if c_matched {
            lemma_child_path_ends_with(path, c.name@);
        }

        // Every emitted path lies strictly beneath `path` and ends in the
        // target component.
        assert forall|k: int| 0 <= k < m.len() implies is_strict_subpath(#[trigger] m[k].0, path)
            && ends_with_component(m[k].0, target) by {
            if k < mp.len() {
                assert(m[k] == mp[k]);
            } else {
                let kk = k - mp.len();
                assert(m[k] == mc[kk]);
                if c_matched {
                    assert(mc[kk].0 == pc);
                } else {
                    assert(is_strict_subpath(mc[kk].0, pc));
                    lemma_subpath_trans(mc[kk].0, pc, path);
                }
            }
        }

        // No ancestor of an emitted path strictly between it and `path`
        // ends in the target component.
        assert forall|k: int, r: Seq<char>|
            0 <= k < m.len() && #[trigger] is_strict_subpath(m[k].0, r) && is_strict_subpath(
                r,
                path,
            ) implies !ends_with_component(r, target) by {
            if k < mp.len() {
                assert(m[k] == mp[k]);
                assert(is_strict_subpath(mp[k].0, r));
            } else {
                let kk = k - mp.len();
                assert(m[k] == mc[kk]);
                let q = mc[kk].0;
                if c_matched {
                    // q == pc: there is no separator boundary strictly
                    // between `path` and `pc`, so no such `r` exists.
                    assert(q == pc);
                    if r.len() < pc.len() {
                        assert(q[r.len() as int] == '/');
                        assert(r.len() > path.len());
                        assert(q[r.len() as int] == c.name@[r.len() - path.len() - 1]);
                        assert(false);
                    } else {
                        assert(r.len() < q.len() && r.len() >= pc.len());
                        assert(false);
                    }
                } else {
                    assert(is_strict_subpath(q, pc));
                    if r.len() > pc.len() {
                        assert forall|t: int| 0 <= t < r.len() implies r[t] == q[t] by {
                            assert(q.subrange(0, r.len() as int)[t] == q[t]);
                        }
                        assert(r.subrange(0, pc.len() as int) =~= q.subrange(0, pc.len() as int));
                        assert(r[pc.len() as int] == q[pc.len() as int]);
                        assert(is_strict_subpath(r, pc));
                        assert(is_strict_subpath(q, r) && is_strict_subpath(r, pc));
                    } else if r.len() == pc.len() {
                        assert(r =~= pc) by {
                            assert forall|t: int| 0 <= t < pc.len() implies r[t] == pc[t] by {
                                assert(q.subrange(0, r.len() as int)[t] == q[t]);
                                assert(q.subrange(0, pc.len() as int)[t] == q[t]);
                            }
                        }
                        lemma_child_path_component_unique(path, c.name@, target);
                    } else {
                        assert(q[r.len() as int] == '/');
                        assert(r.len() > path.len());
                        assert(q.subrange(0, pc.len() as int)[r.len() as int] == q[r.len() as int]);
                        assert(pc[r.len() as int] == c.name@[r.len() - path.len() - 1]);
                        assert(false);
                    }
                }
            }
        }
    }
}

/// Law: matches never nest.  No path that one scan emits lies beneath
/// another path emitted by the same scan: once a directory matches, the
/// scan does not descend into it, so nothing under a match is ever
/// reported.
pub proof fn lemma_scan_matches_never_nest(
    n: FsNode,
    path: Seq<char>,
    target: Seq<char>,
    i: int,
    j: int,
)
    requires
        wf_node(n),
        wf_name(target),
        0 <= i < scan_matches(n, path, target).len(),
        0 <= j < scan_matches(n, path, target).len(),
    ensures
        !is_strict_subpath(scan_matches(n, path, target)[i].0, scan_matches(n, path, target)[j].0),
{
    let m = scan_matches(n, path, target);
    lemma_scan_node_props(n, path, target);
    if n.kind is Dir && n.name@ == target {
        assert(m[i].0 == path && m[j].0 == path);
    } else {
        if is_strict_subpath(m[i].0, m[j].0) {
            assert(ends_with_component(m[j].0, target));
            assert(is_strict_subpath(m[j].0, path));
            assert(!ends_with_component(m[j].0, target));
        }
    }
}

/// The freshly appended entry at offset `k` carries the `k`-th match and a
/// fresh identifier.
pub open spec fn entry_matches(e: DirEntry, path: Seq<char>, size: u64, id: u64) -> bool {
    &&& e.path@ == path
    &&& e.size == size
    &&& e.id == id
    &&& e.deletion_state == DeletionState::Ready
}

/// Compares two strings character by character.
fn str_eq(a: &str, b: &str) -> (r: bool)
    ensures
        r == (a@ == b@),
{
    let an = a.unicode_len();
    let bn = b.unicode_len();
    if an != bn {
        return false;
    }
    let mut i: usize = 0;
    while i < an
        invariant
            i <= an,
            an == a@.len(),
            bn == b@.len(),
            an == bn,
            forall|j: int| 0 <= j < i ==> a@[j] == b@[j],
        decreases an - i,
    {
        let ca = a.get_char(i);
        let cb = b.get_char(i);
        if ca != cb {
            return false;
        }
        i = i + 1;
    }
    proof {
        assert(a@ =~= b@);
    }
    true
}

/// The scanner's match rule: a node is a match exactly when it is a
/// directory and its base name equals the target.
pub fn is_match(name: &str, target: &str, is_dir: bool) -> (r: bool)
    ensures
        r == (name@ == target@ && is_dir),
{
    is_dir && str_eq(name, target)
}

fn get_files_rec(n: &FsNode, path: &str, target: &str, reg: &mut Registry)
    requires
        old(reg).wf(),
        old(reg).next_id + scan_matches(*n, path@, target@).len() <= u64::MAX,
    ensures
        final(reg).wf(),
        ({
            let m = scan_matches(*n, path@, target@);
            let olds = old(reg).entries@;
            &&& final(reg).entries@.len() == olds.len() + m.len()
            &&& (forall|j: int| 0 <= j < olds.len() ==> final(reg).entries@[j] == olds[j])
            &&& (forall|k: int|
                0 <= k < m.len() ==> entry_matches(
                    #[trigger] final(reg).entries@[olds.len() + k],
                    m[k].0,
                    m[k].1,
                    (old(reg).next_id + k) as u64,
                ))
            &&& final(reg).next_id == old(reg).next_id + m.len()
            &&& final(reg).loading == old(reg).loading
        }),
    decreases node_height(*n),
{
    match &n.kind {
        FsNodeKind::File { size } => {},
        FsNodeKind::Dir { children } => {
            if str_eq(n.name.as_str(), target) {
                let size = recursive_size(n);
                let owned_path = path.to_owned();
                reg.append(owned_path, size);
            } else {
                let ghost cs = children@;
                let ghost full = scan_children(cs, path@, target@);
                let ghost olds = old(reg).entries@;
                let ghost oldid = old(reg).next_id;
                proof {
                    lemma_scan_children_split(cs, path@, target@, 0);
                    assert(cs.subrange(0, 0) =~= Seq::<FsNode>::empty());
                    assert(Seq::<(Seq<char>, u64)>::empty() + scan_children_from(
                        cs,
                        path@,
                        target@,
                        0,
                    ) =~= scan_children_from(cs, path@, target@, 0));
                }
                let mut i: usize = 0;
                while i < children.len()
                    invariant
                        i <= cs.len(),
                        cs == children@,
                        n.kind matches FsNodeKind::Dir { children: c } && c@ == cs,
                        !(n.name@ == target@),
                        reg.wf(),
                        full == scan_children(cs, path@, target@),
                        oldid + full.len() <= u64::MAX,
                        ({
                            let m = scan_children(cs.subrange(0, i as int), path@, target@);
                            &&& scan_children(cs.subrange(0, i as int), path@, target@)
                                + scan_children_from(cs, path@, target@, i as int) == full
                            &&& reg.entries@.len() == olds.len() + m.len()
                            &&& (forall|j: int| 0 <= j < olds.len() ==> reg.entries@[j] == olds[j])
                            &&& (forall|k: int|
                                0 <= k < m.len() ==> entry_matches(
                                    #[trigger] reg.entries@[olds.len() + k],
                                    m[k].0,
                                    m[k].1,
                                    (oldid + k) as u64,
                                ))
                            &&& reg.next_id == oldid + m.len()
                            &&& reg.loading == old(reg).loading
                        }),
                    decreases cs.len() - i,
                {
                    let ghost m_pre = scan_children(cs.subrange(0, i as int), path@, target@);
                    let child = &children[i];
                    let mut child_path = path.to_owned();
                    child_path.append("/");
                    child_path.append(child.name.as_str());
                    proof {
                        reveal_strlit("/");
                        assert("/"@ =~= seq!['/']);
                        assert(child_path@ == path@ + seq!['/'] + cs[i as int].name@);
                        lemma_child_height(cs, i as int);
                        assert(scan_children_from(cs, path@, target@, i as int) == scan_matches(
                            cs[i as int],
                            path@ + seq!['/'] + cs[i as int].name@,
                            target@,
                        ) + scan_children_from(cs, path@, target@, i + 1));
                        assert(scan_matches(cs[i as int], child_path@, target@).len()
                            <= scan_children_from(cs, path@, target@, i as int).len());
                        assert(m_pre.len() + scan_children_from(cs, path@, target@, i as int).len()
                            == full.len());
                    }
                    let ghost pre_entries = reg.entries@;
                    let ghost pre_nid = reg.next_id;
                    get_files_rec(child, child_path.as_str(), target, reg);
                    proof {
                        let mc = scan_matches(
                            cs[i as int],
                            path@ + seq!['/'] + cs[i as int].name@,
                            target@,
                        );
                        let pre1 = cs.subrange(0, i + 1);
                        assert(pre1.subrange(0, pre1.len() - 1) =~= cs.subrange(0, i as int));
                        assert(pre1[pre1.len() - 1] == cs[i as int]);
                        assert(scan_children(pre1, path@, target@) == m_pre + mc);
                        lemma_scan_children_split(cs, path@, target@, i + 1);
                        assert forall|k: int|
                            0 <= k < (m_pre + mc).len() implies entry_matches(
                            #[trigger] reg.entries@[olds.len() + k],
                            (m_pre + mc)[k].0,
                            (m_pre + mc)[k].1,
                            (oldid + k) as u64,
                        ) by {
                            if k < m_pre.len() {
                                assert(olds.len() + k < pre_entries.len());
                                assert(reg.entries@[olds.len() + k] == pre_entries[olds.len() + k]);
                                assert(entry_matches(
                                    pre_entries[olds.len() + k],
                                    m_pre[k].0,
                                    m_pre[k].1,
                                    (oldid + k) as u64,
                                ));
                            } else {
                                let kk = k - m_pre.len();
                                assert(entry_matches(
                                    reg.entries@[pre_entries.len() + kk],
                                    mc[kk].0,
                                    mc[kk].1,
                                    (pre_nid + kk) as u64,
                                ));
                                assert(pre_entries.len() + kk == olds.len() + k);
                            }
                        }
                    }
                    i = i + 1;
                }
                proof {
                    assert(cs.subrange(0, cs.len() as int) =~= cs);
                }
            }
        },
    }
}

/// The scan: walks the modelled tree at `root` (whose own path is
/// `root_path`), appends one `Ready` entry per matching directory, in
/// traversal order and under fresh identifiers, and finally clears the
/// loading flag.  A matched directory is not descended into, so matches
/// never nest.
pub fn get_files(target: &str, root: &FsNode, root_path: &str, reg: &mut Registry)
    requires
        old(reg).wf(),
        old(reg).next_id + scan_matches(*root, root_path@, target@).len() <= u64::MAX,
    ensures
        final(reg).wf(),
        final(reg).loading == false,
        ({
            let m = scan_matches(*root, root_path@, target@);
            let olds = old(reg).entries@;
            &&& final(reg).entries@.len() == olds.len() + m.len()
            &&& (forall|j: int| 0 <= j < olds.len() ==> final(reg).entries@[j] == olds[j])
            &&& (forall|k: int|
                0 <= k < m.len() ==> entry_matches(
                    #[trigger] final(reg).entries@[olds.len() + k],
                    m[k].0,
                    m[k].1,
                    (old(reg).next_id + k) as u64,
                ))
            &&& final(reg).next_id == old(reg).next_id + m.len()
        }),
{
    get_files_rec(root, root_path, target, reg);
    reg.finish_scan();
}

/// The deletion lifecycle of a discovered entry.  `Ready` may only move to
/// `Deleting`; `Deleting` resolves to `Deleted` or `Error`; an `Error` entry
/// may be re-triggered, which puts it back into `Deleting`.
#[derive(Copy, Clone, Debug, PartialEq, Eq, Structural)]
pub enum DeletionState {
    Ready,
    Deleting,
    Deleted,
    Error,
}

/// One discovered match: a directory whose base name equalled the target.
/// `id` is a registry-unique identifier that stays stable however the
/// registry is reordered or compacted; `size` is the measured size of the
/// subtree at discovery time and is never recomputed.
#[derive(Debug)]
pub struct DirEntry {
    pub id: u64,
    pub path: String,
    pub size: u64,
    pub deletion_state: DeletionState,
}

impl DirEntry {
    /// A freshly discovered entry: it starts out `Ready`.
    pub fn new(id: u64, path: String, size: u64) -> (e: DirEntry)
        ensures
            e.id == id,
            e.path == path,
            e.size == size,
            e.deletion_state == DeletionState::Ready,
    {
        DirEntry { id, path, size, deletion_state: DeletionState::Ready }
    }
}

} // verus!

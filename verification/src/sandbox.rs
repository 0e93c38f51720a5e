//! The sandbox ledger: a record of every filesystem entity the engine has
//! decided to create, keyed by its confined path. Every mutating operation
//! first routes its target through the path jail, so the ledger never holds
//! a path outside the chroot directory. An unverified shell replays these
//! decisions onto the real filesystem.

use vstd::prelude::*;
use vstd::string::*;
use vstd::slice::{slice_subrange, slice_to_vec};
use vstd::utf8::is_ascii_chars;
use crate::paths::{
    chrooted_path, is_path_prefix, lemma_safe_join_contained, lemma_safe_join_no_dotdot,
    no_dotdot_part, no_double_sep, path_starts_with, safe_path_join, spec_chrooted_path,
    spec_safe_path_join,
};
use crate::numerals::{decimal_string, lemma_decimal_ascii, spec_decimal};

verus! {

#[derive(Clone, Copy, PartialEq, Eq, Structural, Debug)]
pub enum NodeKind {
    Regular,
    Directory,
    Symlink,
}

/// One recorded filesystem entity.
pub struct Node {
    pub path: String,
    pub kind: NodeKind,
    pub content: Vec<u8>,
    pub link_target: String,
    pub exec_bit: bool,
}

/// The mathematical image of one entity.
pub struct NodeData {
    pub kind: NodeKind,
    pub content: Seq<u8>,
    pub link_target: Seq<char>,
    pub exec_bit: bool,
}

impl Node {
    pub open spec fn data(self) -> NodeData {
        NodeData {
            kind: self.kind,
            content: self.content@,
            link_target: self.link_target@,
            exec_bit: self.exec_bit,
        }
    }
}

/// The size an entity reports when the output of an extraction is judged:
/// a regular file weighs its contents, a symlink its stored target, and a
/// directory entry carries no size of its own.
pub open spec fn node_size(d: NodeData) -> int {
    match d.kind {
        NodeKind::Regular => d.content.len() as int,
        NodeKind::Symlink => d.link_target.len() as int,
        NodeKind::Directory => 0,
    }
}

/// The bytes of an ASCII character sequence.
pub open spec fn ascii_bytes(s: Seq<char>) -> Seq<u8> {
    Seq::new(s.len(), |i: int| s[i] as u8)
}

/// The text recorded in place of a device node: `"<c|b> <major> <minor>"`.
pub open spec fn device_text(tag: char, major: int, minor: int) -> Seq<char> {
    seq![tag, ' '] + spec_decimal(major) + seq![' '] + spec_decimal(minor)
}

pub open spec fn map_of(nodes: Seq<Node>) -> Map<Seq<char>, NodeData>
    decreases nodes.len(),
{
    if nodes.len() == 0 {
        Map::<Seq<char>, NodeData>::empty()
    } else {
        map_of(nodes.drop_last()).insert(nodes.last().path@, nodes.last().data())
    }
}

pub open spec fn unique_paths(nodes: Seq<Node>) -> bool {
    forall|i: int, j: int|
        #![trigger nodes[i], nodes[j]]
        0 <= i < j < nodes.len() ==> nodes[i].path@ != nodes[j].path@
}

proof fn lemma_map_of_contains(nodes: Seq<Node>, p: Seq<char>)
    ensures
        map_of(nodes).dom().contains(p)
            <==> exists|i: int| 0 <= i < nodes.len() && (#[trigger] nodes[i]).path@ == p,
    decreases nodes.len(),
{
    if nodes.len() == 0 {
    } else {
        lemma_map_of_contains(nodes.drop_last(), p);
        if nodes.last().path@ == p {
            assert(nodes[nodes.len() - 1].path@ == p);
        } else {
            if exists|i: int| 0 <= i < nodes.len() && (#[trigger] nodes[i]).path@ == p {
                let i = choose|i: int| 0 <= i < nodes.len() && (#[trigger] nodes[i]).path@ == p;
                assert(i < nodes.len() - 1);
                assert(nodes.drop_last()[i].path@ == p);
            }
            if exists|i: int|
                0 <= i < nodes.drop_last().len() && (#[trigger] nodes.drop_last()[i]).path@ == p {
                let i = choose|i: int|
                    0 <= i < nodes.drop_last().len()
                        && (#[trigger] nodes.drop_last()[i]).path@ == p;
                assert(nodes[i].path@ == p);
            }
        }
    }
}

proof fn lemma_unique_drop_last(nodes: Seq<Node>)
    requires
        unique_paths(nodes),
        nodes.len() > 0,
    ensures
        unique_paths(nodes.drop_last()),
{
    assert(forall|i: int|
        0 <= i < nodes.drop_last().len() ==> #[trigger] nodes.drop_last()[i] == nodes[i]);
}

proof fn lemma_map_of_get(nodes: Seq<Node>, i: int)
    requires
        unique_paths(nodes),
        0 <= i < nodes.len(),
    ensures
        map_of(nodes).dom().contains(nodes[i].path@),
        map_of(nodes)[nodes[i].path@] == nodes[i].data(),
    decreases nodes.len(),
{
    if i == nodes.len() - 1 {
    } else {
        lemma_unique_drop_last(nodes);
        lemma_map_of_get(nodes.drop_last(), i);
        assert(nodes.drop_last()[i] == nodes[i]);
        assert(nodes.last().path@ != nodes[i].path@);
    }
}

proof fn lemma_unique_remove(nodes: Seq<Node>, i: int)
    requires
        unique_paths(nodes),
        0 <= i < nodes.len(),
    ensures
        unique_paths(nodes.remove(i)),
{
    let rem = nodes.remove(i);
    assert forall|a: int, b: int|
        #![trigger rem[a], rem[b]]
        0 <= a < b < rem.len() implies rem[a].path@ != rem[b].path@ by {
        let oa: int = if a < i { a } else { a + 1 };
        let ob: int = if b < i { b } else { b + 1 };
        assert(rem[a] == nodes[oa]);
        assert(rem[b] == nodes[ob]);
    }
}

proof fn lemma_map_of_remove(nodes: Seq<Node>, i: int)
    requires
        unique_paths(nodes),
        0 <= i < nodes.len(),
    ensures
        map_of(nodes.remove(i)) == map_of(nodes).remove(nodes[i].path@),
    decreases nodes.len(),
{
    let p = nodes[i].path@;
    if i == nodes.len() - 1 {
        assert(nodes.remove(i) =~= nodes.drop_last());
        lemma_map_of_contains(nodes.drop_last(), p);
        if map_of(nodes.drop_last()).dom().contains(p) {
            let q = choose|q: int|
                0 <= q < nodes.drop_last().len() && (#[trigger] nodes.drop_last()[q]).path@ == p;
            assert(nodes[q].path@ == p);
            assert(false);
        }
        assert(map_of(nodes.remove(i)) =~= map_of(nodes).remove(p));
    } else {
        lemma_unique_drop_last(nodes);
        lemma_map_of_remove(nodes.drop_last(), i);
        assert(nodes.remove(i).drop_last() =~= nodes.drop_last().remove(i));
        assert(nodes.remove(i).last() == nodes.last());
        assert(nodes.drop_last()[i] == nodes[i]);
        assert(nodes.last().path@ != p);
        assert(map_of(nodes.remove(i)) =~= map_of(nodes).remove(p));
    }
}

/// Success condition of `create_file`: the confined path is new and the
/// requested byte range lies inside the data buffer.
pub open spec fn create_file_ok(
    m: Map<Seq<char>, NodeData>,
    file_path: Seq<char>,
    chroot: Seq<char>,
    data_len: int,
    start: int,
    size: int,
) -> bool {
    &&& !m.dom().contains(spec_chrooted_path(file_path, chroot))
    &&& start + size <= data_len
}

/// The stored target of a created symlink: an absolute target is confined
/// directly; a relative one is resolved against the confined symlink's own
/// parent directory and the combination is confined again.
pub open spec fn spec_symlink_target(
    symlink: Seq<char>,
    target: Seq<char>,
    chroot: Seq<char>,
) -> Seq<char> {
    if target.len() > 0 && target[0] == '/' {
        spec_chrooted_path(target, chroot)
    } else {
        spec_safe_path_join(spec_parent_of(spec_chrooted_path(symlink, chroot)), target, chroot)
    }
}

/// Index of the last separator of `p`, or `-1` when it has none.
pub open spec fn last_sep(p: Seq<char>) -> int
    decreases p.len(),
{
    if p.len() == 0 {
        -1
    } else if p.last() == '/' {
        p.len() - 1
    } else {
        last_sep(p.drop_last())
    }
}

/// The parent directory of a path, as the symlink resolution uses it: the
/// root for an empty path, everything before the last separator otherwise,
/// with a lone leading separator kept.
pub open spec fn spec_parent_of(p: Seq<char>) -> Seq<char> {
    if p.len() == 0 {
        seq!['/']
    } else {
        let i = last_sep(p);
        if i < 0 {
            Seq::<char>::empty()
        } else if i == 0 {
            seq!['/']
        } else {
            p.take(i)
        }
    }
}

proof fn lemma_last_sep_suffix(p: Seq<char>, i: int)
    requires
        0 <= i <= p.len(),
        forall|t: int| i <= t < p.len() ==> p[t] != '/',
    ensures
        last_sep(p) == last_sep(p.take(i)),
    decreases p.len() - i,
{
    if i == p.len() {
        assert(p.take(i) =~= p);
    } else {
        assert(p.last() != '/');
        assert(p.drop_last() =~= p.take(p.len() - 1));
        lemma_last_sep_suffix(p.take(p.len() - 1), i);
        assert(p.take(p.len() - 1).take(i) =~= p.take(i));
    }
}

/// The parent directory of a confined path.
pub fn parent_of(p: &String) -> (r: String)
    ensures
        r@ == spec_parent_of(p@),
{
    let s: &str = p.as_str();
    let n: usize = s.unicode_len();
    if n == 0 {
        proof { reveal_strlit("/"); }
        let root = String::from_str("/");
        proof { assert(root@ =~= seq!['/']); }
        return root;
    }
    let mut i: usize = n;
    while i > 0
        invariant
            n == p@.len(),
            s@ == p@,
            i <= n,
            forall|t: int| i <= t < n ==> p@[t] != '/',
        decreases i,
    {
        if s.get_char(i - 1) == '/' {
            proof {
                lemma_last_sep_suffix(p@, i as int);
                assert(p@.take(i as int).last() == p@[i as int - 1]);
                assert(last_sep(p@) == i - 1);
            }
            if i - 1 == 0 {
                proof { reveal_strlit("/"); }
                let root = String::from_str("/");
                proof { assert(root@ =~= seq!['/']); }
                return root;
            }
            let par: &str = s.substring_char(0, i - 1);
            proof {
                assert(par@ =~= p@.take(i as int - 1));
            }
            return String::from_str(par);
        }
        i = i - 1;
    }
    proof {
        lemma_last_sep_suffix(p@, 0);
        assert(p@.take(0) =~= Seq::<char>::empty());
        assert(last_sep(p@) == -1);
    }
    String::new()
}

/// The keys that deleting a directory tree removes: the directory itself
/// and every path strictly below it.
pub open spec fn keys_under(dir: Seq<char>) -> Set<Seq<char>> {
    Set::new(|k: Seq<char>| k == dir || is_path_prefix(dir + seq!['/'], k))
}

/// A recorded non-empty regular file at or below `dir`.
pub open spec fn is_extracted_file(
    m: Map<Seq<char>, NodeData>,
    dir: Seq<char>,
    k: Seq<char>,
) -> bool {
    &&& m.dom().contains(k)
    &&& (k == dir || is_path_prefix(dir + seq!['/'], k))
    &&& m[k].kind == NodeKind::Regular
    &&& m[k].content.len() > 0
}

/// Some entity strictly below `dir` has a size greater than zero.
pub open spec fn spec_anything_under(m: Map<Seq<char>, NodeData>, dir: Seq<char>) -> bool {
    exists|k: Seq<char>|
        #[trigger] m.dom().contains(k) && is_path_prefix(dir + seq!['/'], k) && node_size(m[k]) > 0
}

/// The sandbox ledger itself.
pub struct Sandbox {
    nodes: Vec<Node>,
}

impl View for Sandbox {
    type V = Map<Seq<char>, NodeData>;

    closed spec fn view(&self) -> Map<Seq<char>, NodeData> {
        map_of(self.nodes@)
    }
}

impl Sandbox {
    pub closed spec fn wf(self) -> bool {
        unique_paths(self.nodes@)
    }

    /// An empty sandbox: nothing recorded yet.
    pub fn new() -> (r: Sandbox)
        ensures
            r.wf(),
            r@ == Map::<Seq<char>, NodeData>::empty(),
    {
        Sandbox { nodes: Vec::new() }
    }

    fn find(&self, path: &String) -> (r: Option<usize>)
        requires
            self.wf(),
        ensures
            match r {
                Option::Some(i) => i < self.nodes@.len() && self.nodes@[i as int].path@ == path@
                    && self@.dom().contains(path@)
                    && self@[path@] == self.nodes@[i as int].data(),
                Option::None => !self@.dom().contains(path@),
            },
    {
        let n: usize = self.nodes.len();
        let mut i: usize = 0;
        while i < n
            invariant
                self.wf(),
                n == self.nodes@.len(),
                i <= n,
                forall|t: int| 0 <= t < i ==> (#[trigger] self.nodes@[t]).path@ != path@,
            decreases n - i,
        {
            if self.nodes[i].path.eq(path) {
                proof {
                    lemma_map_of_get(self.nodes@, i as int);
                }
                return Option::Some(i);
            }
            i = i + 1;
        }
        proof {
            lemma_map_of_contains(self.nodes@, path@);
        }
        Option::None
    }

    /// Creates a regular file holding `data[start..start + size]` at the
    /// confined path; refuses to overwrite and refuses a range that leaves
    /// the buffer.
    pub fn create_file(
        &mut self,
        file_path: &String,
        data: &[u8],
        start: usize,
        size: usize,
        chroot: &String,
    ) -> (r: bool)
        requires
            old(self).wf(),
        ensures
            final(self).wf(),
            r == create_file_ok(
                old(self)@, file_path@, chroot@, data@.len() as int, start as int, size as int),
            r ==> final(self)@ == old(self)@.insert(
                spec_chrooted_path(file_path@, chroot@),
                NodeData {
                    kind: NodeKind::Regular,
                    content: data@.subrange(start as int, start as int + size as int),
                    link_target: Seq::<char>::empty(),
                    exec_bit: false,
                },
            ),
            !r ==> final(self)@ == old(self)@,
    {
        let safe_file_path = chrooted_path(file_path, chroot);
        match self.find(&safe_file_path) {
            Option::Some(_) => false,
            Option::None => {
                if size > data.len() || start > data.len() - size {
                    false
                } else {
                    let content = slice_to_vec(slice_subrange(data, start, start + size));
                    let node = Node {
                        path: safe_file_path,
                        kind: NodeKind::Regular,
                        content,
                        link_target: String::new(),
                        exec_bit: false,
                    };
                    proof {
                        lemma_map_of_contains(self.nodes@, node.path@);
                    }
                    self.push_new(node);
                    true
                }
            }
        }
    }

    /// Appends one node whose path is known to be absent.
    fn push_new(&mut self, node: Node)
        requires
            old(self).wf(),
            !old(self)@.dom().contains(node.path@),
        ensures
            final(self).wf(),
            final(self)@ == old(self)@.insert(node.path@, node.data()),
    {
        proof {
            lemma_map_of_contains(self.nodes@, node.path@);
        }
        self.nodes.push(node);
        proof {
            assert(self.nodes@.drop_last() =~= old(self).nodes@);
            assert(self.nodes@.last() == node);
            assert forall|i: int, j: int|
                #![trigger self.nodes@[i], self.nodes@[j]]
                0 <= i < j < self.nodes@.len() implies
                self.nodes@[i].path@ != self.nodes@[j].path@ by {
                if j < self.nodes@.len() - 1 {
                    assert(self.nodes@[i] == old(self).nodes@[i]);
                    assert(self.nodes@[j] == old(self).nodes@[j]);
                } else {
                    assert(self.nodes@[i] == old(self).nodes@[i]);
                    if old(self).nodes@[i].path@ == node.path@ {
                        assert(false);
                    }
                }
            }
        }
    }

    /// Records a directory at the confined path; succeeds when the path is
    /// free or already holds a directory.
    pub fn create_directory(&mut self, dir_path: &String, chroot: &String) -> (r: bool)
        requires
            old(self).wf(),
        ensures
            final(self).wf(),
            ({
                let k = spec_chrooted_path(dir_path@, chroot@);
                &&& (!old(self)@.dom().contains(k) ==> r && final(self)@ == old(self)@.insert(
                    k,
                    NodeData {
                        kind: NodeKind::Directory,
                        content: Seq::<u8>::empty(),
                        link_target: Seq::<char>::empty(),
                        exec_bit: false,
                    },
                ))
                &&& (old(self)@.dom().contains(k) ==> final(self)@ == old(self)@
                    && r == (old(self)@[k].kind == NodeKind::Directory))
            }),
    {
        let safe_dir_path = chrooted_path(dir_path, chroot);
        match self.find(&safe_dir_path) {
            Option::Some(i) => {
                let k = self.nodes[i].kind;
                k == NodeKind::Directory
            }
            Option::None => {
                let node = Node {
                    path: safe_dir_path,
                    kind: NodeKind::Directory,
                    content: Vec::new(),
                    link_target: String::new(),
                    exec_bit: false,
                };
                self.push_new(node);
                true
            }
        }
    }

    /// Records a symlink at the confined symlink path, whose stored target
    /// is itself confined: absolute targets directly, relative targets
    /// against the symlink's own parent directory.
    pub fn create_symlink(&mut self, symlink: &String, target: &String, chroot: &String) -> (r:
        bool)
        requires
            old(self).wf(),
        ensures
            final(self).wf(),
            ({
                let k = spec_chrooted_path(symlink@, chroot@);
                &&& r == !old(self)@.dom().contains(k)
                &&& (r ==> final(self)@ == old(self)@.insert(
                    k,
                    NodeData {
                        kind: NodeKind::Symlink,
                        content: Seq::<u8>::empty(),
                        link_target: spec_symlink_target(symlink@, target@, chroot@),
                        exec_bit: false,
                    },
                ))
                &&& (!r ==> final(self)@ == old(self)@)
            }),
    {
        let safe_symlink = chrooted_path(symlink, chroot);
        let safe_target: String = symlink_target_path(symlink, target, chroot);
        match self.find(&safe_symlink) {
            Option::Some(_) => false,
            Option::None => {
                let node = Node {
                    path: safe_symlink,
                    kind: NodeKind::Symlink,
                    content: Vec::new(),
                    link_target: safe_target,
                    exec_bit: false,
                };
                self.push_new(node);
                true
            }
        }
    }

    /// Whether the given path (not confined: callers pass already-confined
    /// paths) is recorded as a symlink.
    pub fn is_symlink(&self, file_path: &String) -> (r: bool)
        requires
            self.wf(),
        ensures
            r == (self@.dom().contains(file_path@)
                && self@[file_path@].kind == NodeKind::Symlink),
    {
        match self.find(file_path) {
            Option::Some(i) => {
                let k = self.nodes[i].kind;
                k == NodeKind::Symlink
            }
            Option::None => false,
        }
    }

    /// Appends `data` to the regular file at the confined path, creating
    /// it when absent; refuses to touch a recorded symlink or directory.
    pub fn append_to_file(&mut self, file_path: &String, data: &[u8], chroot_dir: &String) -> (r:
        bool)
        requires
            old(self).wf(),
        ensures
            final(self).wf(),
            ({
                let k = spec_chrooted_path(file_path@, chroot_dir@);
                &&& (!old(self)@.dom().contains(k) ==> r && final(self)@ == old(self)@.insert(
                    k,
                    NodeData {
                        kind: NodeKind::Regular,
                        content: data@,
                        link_target: Seq::<char>::empty(),
                        exec_bit: false,
                    },
                ))
                &&& (old(self)@.dom().contains(k) && old(self)@[k].kind == NodeKind::Regular
                    ==> r && final(self)@ == old(self)@.insert(
                    k,
                    NodeData {
                        kind: NodeKind::Regular,
                        content: old(self)@[k].content + data@,
                        link_target: old(self)@[k].link_target,
                        exec_bit: old(self)@[k].exec_bit,
                    },
                ))
                &&& (old(self)@.dom().contains(k) && old(self)@[k].kind != NodeKind::Regular
                    ==> !r && final(self)@ == old(self)@)
            }),
    {
        let safe_file_path = chrooted_path(file_path, chroot_dir);
        match self.find(&safe_file_path) {
            Option::None => {
                let node = Node {
                    path: safe_file_path,
                    kind: NodeKind::Regular,
                    content: slice_to_vec(data),
                    link_target: String::new(),
                    exec_bit: false,
                };
                self.push_new(node);
                true
            }
            Option::Some(i) => {
                let k = self.nodes[i].kind;
                if k == NodeKind::Regular {
                    proof {
                        lemma_unique_remove(self.nodes@, i as int);
                        lemma_map_of_remove(self.nodes@, i as int);
                    }
                    let mut node = self.nodes.remove(i);
                    node.content.extend_from_slice(data);
                    proof {
                        lemma_map_of_contains(self.nodes@, node.path@);
                        if exists|t: int|
                            0 <= t < self.nodes@.len()
                                && (#[trigger] self.nodes@[t]).path@ == node.path@ {
                            let t = choose|t: int|
                                0 <= t < self.nodes@.len()
                                    && (#[trigger] self.nodes@[t]).path@ == node.path@;
                            let ot: int = if t < i as int { t } else { t + 1 };
                            assert(self.nodes@[t] == old(self).nodes@[ot]);
                            assert(false);
                        }
                    }
                    proof {
                        assert(node.path@ == safe_file_path@);
                        assert(node.kind == NodeKind::Regular);
                        assert(node.content@ == old(self)@[safe_file_path@].content + data@);
                        assert(node.link_target@ == old(self)@[safe_file_path@].link_target);
                        assert(node.exec_bit == old(self)@[safe_file_path@].exec_bit);
                        assert(node.data() == NodeData {
                            kind: NodeKind::Regular,
                            content: old(self)@[safe_file_path@].content + data@,
                            link_target: old(self)@[safe_file_path@].link_target,
                            exec_bit: old(self)@[safe_file_path@].exec_bit,
                        });
                    }
                    self.push_new(node);
                    proof {
                        assert(self@ =~= old(self)@.insert(
                            safe_file_path@,
                            NodeData {
                                kind: NodeKind::Regular,
                                content: old(self)@[safe_file_path@].content + data@,
                                link_target: old(self)@[safe_file_path@].link_target,
                                exec_bit: old(self)@[safe_file_path@].exec_bit,
                            },
                        ));
                    }
                    true
                } else {
                    false
                }
            }
        }
    }

    /// Sets the execute bit of the entity at the confined path, leaving
    /// every other permission as it was.
    pub fn make_executable(&mut self, file_path: &String, chroot: &String) -> (r: bool)
        requires
            old(self).wf(),
        ensures
            final(self).wf(),
            ({
                let k = spec_chrooted_path(file_path@, chroot@);
                &&& r == old(self)@.dom().contains(k)
                &&& (r ==> final(self)@ == old(self)@.insert(
                    k,
                    NodeData {
                        kind: old(self)@[k].kind,
                        content: old(self)@[k].content,
                        link_target: old(self)@[k].link_target,
                        exec_bit: true,
                    },
                ))
                &&& (!r ==> final(self)@ == old(self)@)
            }),
    {
        let safe_file_path = chrooted_path(file_path, chroot);
        match self.find(&safe_file_path) {
            Option::None => false,
            Option::Some(i) => {
                proof {
                    lemma_unique_remove(self.nodes@, i as int);
                    lemma_map_of_remove(self.nodes@, i as int);
                }
                let mut node = self.nodes.remove(i);
                node.exec_bit = true;
                proof {
                    lemma_map_of_contains(self.nodes@, node.path@);
                    if exists|t: int|
                        0 <= t < self.nodes@.len()
                            && (#[trigger] self.nodes@[t]).path@ == node.path@ {
                        let t = choose|t: int|
                            0 <= t < self.nodes@.len()
                                && (#[trigger] self.nodes@[t]).path@ == node.path@;
                        let ot: int = if t < i as int { t } else { t + 1 };
                        assert(self.nodes@[t] == old(self).nodes@[ot]);
                        assert(false);
                    }
                }
                self.push_new(node);
                proof {
                    assert(self@ =~= old(self)@.insert(
                        safe_file_path@,
                        NodeData {
                            kind: old(self)@[safe_file_path@].kind,
                            content: old(self)@[safe_file_path@].content,
                            link_target: old(self)@[safe_file_path@].link_target,
                            exec_bit: true,
                        },
                    ));
                }
                true
            }
        }
    }

    /// Forgets the entity recorded at the given (already confined) path.
    pub fn remove_file(&mut self, file_path: &String) -> (r: bool)
        requires
            old(self).wf(),
        ensures
            final(self).wf(),
            r == old(self)@.dom().contains(file_path@),
            r ==> final(self)@ == old(self)@.remove(file_path@),
            !r ==> final(self)@ == old(self)@,
    {
        match self.find(file_path) {
            Option::None => false,
            Option::Some(i) => {
                proof {
                    lemma_unique_remove(self.nodes@, i as int);
                    lemma_map_of_remove(self.nodes@, i as int);
                }
                self.nodes.remove(i);
                true
            }
        }
    }

    /// Forgets the directory recorded at the given (already confined) path
    /// and everything below it.
    pub fn remove_dir_all(&mut self, dir_path: &String) -> (r: bool)
        requires
            old(self).wf(),
        ensures
            final(self).wf(),
            r == old(self)@.dom().contains(dir_path@),
            final(self)@ == old(self)@.remove_keys(keys_under(dir_path@)),
    {
        let existed = match self.find(dir_path) {
            Option::Some(_) => true,
            Option::None => false,
        };
        let mut prefix: String = dir_path.clone();
        prefix.append("/");
        proof {
            reveal_strlit("/");
            assert(prefix@ =~= dir_path@ + seq!['/']);
        }
        let mut i: usize = 0;
        while i < self.nodes.len()
            invariant
                self.wf(),
                i <= self.nodes@.len(),
                prefix@ == dir_path@ + seq!['/'],
                forall|t: int|
                    0 <= t < i ==> !keys_under(dir_path@).contains(
                        (#[trigger] self.nodes@[t]).path@),
                self@.remove_keys(keys_under(dir_path@))
                    == old(self)@.remove_keys(keys_under(dir_path@)),
            decreases self.nodes@.len() - i,
        {
            let doomed = self.nodes[i].path.eq(dir_path)
                || path_starts_with(self.nodes[i].path.as_str(), prefix.as_str());
            if doomed {
                proof {
                    lemma_unique_remove(self.nodes@, i as int);
                    lemma_map_of_remove(self.nodes@, i as int);
                    lemma_map_of_get(self.nodes@, i as int);
                    assert(keys_under(dir_path@).contains(self.nodes@[i as int].path@));
                }
                let ghost pre = self@;
                let ghost key = self.nodes@[i as int].path@;
                self.nodes.remove(i);
                proof {
                    assert(self@ == pre.remove(key));
                    assert(self@.remove_keys(keys_under(dir_path@))
                        =~= pre.remove_keys(keys_under(dir_path@)));
                }
            } else {
                i = i + 1;
            }
        }
        proof {
            assert forall|k: Seq<char>| self@.dom().contains(k) implies
                !keys_under(dir_path@).contains(k) by {
                lemma_map_of_contains(self.nodes@, k);
                let t = choose|t: int|
                    0 <= t < self.nodes@.len() && (#[trigger] self.nodes@[t]).path@ == k;
            }
            assert(self@ =~= self@.remove_keys(keys_under(dir_path@)));
        }
        existed
    }

    /// Every recorded non-empty regular file at or below `directory`.
    pub fn get_extracted_files(&self, directory: &String) -> (r: Vec<String>)
        requires
            self.wf(),
        ensures
            forall|q: int|
                0 <= q < r@.len() ==> is_extracted_file(self@, directory@, (#[trigger] r@[q])@),
            forall|k: Seq<char>|
                #[trigger] is_extracted_file(self@, directory@, k)
                    ==> exists|q: int| 0 <= q < r@.len() && (#[trigger] r@[q])@ == k,
    {
        let mut prefix: String = directory.clone();
        prefix.append("/");
        proof {
            reveal_strlit("/");
            assert(prefix@ =~= directory@ + seq!['/']);
        }
        let mut result: Vec<String> = Vec::new();
        let n: usize = self.nodes.len();
        let mut i: usize = 0;
        while i < n
            invariant
                self.wf(),
                n == self.nodes@.len(),
                i <= n,
                prefix@ == directory@ + seq!['/'],
                forall|q: int|
                    0 <= q < result@.len()
                        ==> is_extracted_file(self@, directory@, (#[trigger] result@[q])@),
                forall|t: int|
                    0 <= t < i && is_extracted_file(
                        self@, directory@, (#[trigger] self.nodes@[t]).path@)
                        ==> exists|q: int|
                            0 <= q < result@.len() && (#[trigger] result@[q])@
                                == self.nodes@[t].path@,
            decreases n - i,
        {
            proof {
                lemma_map_of_get(self.nodes@, i as int);
            }
            let under = self.nodes[i].path.eq(directory)
                || path_starts_with(self.nodes[i].path.as_str(), prefix.as_str());
            let k = self.nodes[i].kind;
            let ghost prev = result@;
            if under && k == NodeKind::Regular && self.nodes[i].content.len() > 0 {
                result.push(self.nodes[i].path.clone());
                proof {
                    assert(result@[result@.len() - 1]@ == self.nodes@[i as int].path@);
                    assert forall|t: int|
                        0 <= t < i + 1 && is_extracted_file(
                            self@, directory@, (#[trigger] self.nodes@[t]).path@)
                        implies exists|q: int|
                            0 <= q < result@.len() && (#[trigger] result@[q])@
                                == self.nodes@[t].path@ by {
                        if t < i {
                            let q0 = choose|q0: int|
                                0 <= q0 < prev.len() && (#[trigger] prev[q0])@
                                    == self.nodes@[t].path@;
                            assert(result@[q0] == prev[q0]);
                            assert((result@[q0])@ == self.nodes@[t].path@);
                        } else {
                            assert((result@[result@.len() - 1])@ == self.nodes@[t].path@);
                        }
                    }
                }
            } else {
                proof {
                    assert(!is_extracted_file(
                        self@, directory@, self.nodes@[i as int].path@));
                }
            }
            i = i + 1;
        }
        proof {
            assert forall|k: Seq<char>| #[trigger] is_extracted_file(self@, directory@, k)
                implies exists|q: int| 0 <= q < result@.len() && (#[trigger] result@[q])@ == k by {
                lemma_map_of_contains(self.nodes@, k);
                let t = choose|t: int|
                    0 <= t < self.nodes@.len() && (#[trigger] self.nodes@[t]).path@ == k;
                lemma_map_of_get(self.nodes@, t);
            }
        }
        result
    }

    /// Whether anything with a size was recorded strictly below the
    /// directory: the orchestrator's "did the extractor produce output"
    /// check.
    pub fn was_something_extracted(&self, output_directory: &String) -> (r: bool)
        requires
            self.wf(),
        ensures
            r == spec_anything_under(self@, output_directory@),
    {
        let mut prefix: String = output_directory.clone();
        prefix.append("/");
        proof {
            reveal_strlit("/");
            assert(prefix@ =~= output_directory@ + seq!['/']);
        }
        let n: usize = self.nodes.len();
        let mut i: usize = 0;
        while i < n
            invariant
                self.wf(),
                n == self.nodes@.len(),
                i <= n,
                prefix@ == output_directory@ + seq!['/'],
                forall|t: int|
                    0 <= t < i ==> !(is_path_prefix(
                        output_directory@ + seq!['/'],
                        (#[trigger] self.nodes@[t]).path@,
                    ) && node_size(self.nodes@[t].data()) > 0),
            decreases n - i,
        {
            proof {
                lemma_map_of_get(self.nodes@, i as int);
            }
            if path_starts_with(self.nodes[i].path.as_str(), prefix.as_str()) {
                let sized = match self.nodes[i].kind {
                    NodeKind::Regular => self.nodes[i].content.len() > 0,
                    NodeKind::Symlink => self.nodes[i].link_target.as_str().unicode_len() > 0,
                    NodeKind::Directory => false,
                };
                if sized {
                    proof {
                        assert(self@.dom().contains(self.nodes@[i as int].path@));
                    }
                    return true;
                }
            }
            i = i + 1;
        }
        proof {
            if spec_anything_under(self@, output_directory@) {
                let k = choose|k: Seq<char>|
                    #[trigger] self@.dom().contains(k)
                        && is_path_prefix(output_directory@ + seq!['/'], k)
                        && node_size(self@[k]) > 0;
                lemma_map_of_contains(self.nodes@, k);
                let t = choose|t: int|
                    0 <= t < self.nodes@.len() && (#[trigger] self.nodes@[t]).path@ == k;
                lemma_map_of_get(self.nodes@, t);
                assert(false);
            }
        }
        false
    }
}

/// The bytes of an ASCII string.
fn ascii_content(s: &String) -> (v: Vec<u8>)
    requires
        is_ascii_chars(s@),
    ensures
        v@ == ascii_bytes(s@),
{
    let b: &[u8] = s.as_str().as_bytes();
    proof {
        vstd::utf8::is_ascii_chars_encode_utf8(s@);
        assert(b@ =~= ascii_bytes(s@));
    }
    slice_to_vec(b)
}

impl Sandbox {
    /// Records a device placeholder file holding `"<tag> <major> <minor>"`.
    fn create_device(
        &mut self,
        file_path: &String,
        device_type: &str,
        major: usize,
        minor: usize,
        chroot: &String,
    ) -> (r: bool)
        requires
            old(self).wf(),
            device_type@.len() == 1,
            '\0' <= device_type@[0] <= '\u{7f}',
        ensures
            final(self).wf(),
            ({
                let k = spec_chrooted_path(file_path@, chroot@);
                let content = ascii_bytes(
                    device_text(device_type@[0], major as int, minor as int));
                &&& r == !old(self)@.dom().contains(k)
                &&& (r ==> final(self)@ == old(self)@.insert(
                    k,
                    NodeData {
                        kind: NodeKind::Regular,
                        content,
                        link_target: Seq::<char>::empty(),
                        exec_bit: false,
                    },
                ))
                &&& (!r ==> final(self)@ == old(self)@)
            }),
    {
        let mut text = String::from_str(device_type);
        text.append(" ");
        let maj = decimal_string(major);
        text.append(maj.as_str());
        text.append(" ");
        let mnr = decimal_string(minor);
        text.append(mnr.as_str());
        let ghost dtext = device_text(device_type@[0], major as int, minor as int);
        proof {
            reveal_strlit(" ");
            assert(" "@ =~= seq![' ']);
            assert(text@ =~= dtext);
            lemma_decimal_ascii(major as int);
            lemma_decimal_ascii(minor as int);
            let dmaj = spec_decimal(major as int);
            let dmin = spec_decimal(minor as int);
            assert forall|q: int| 0 <= q < text@.len() implies
                '\0' <= #[trigger] text@[q] <= '\u{7f}' by {
                if q >= 2 && q < 2 + dmaj.len() {
                    assert(text@[q] == dmaj[q - 2]);
                } else if q > 2 + dmaj.len() {
                    assert(text@[q] == dmin[q - 3 - dmaj.len()]);
                }
            }
        }
        let content = ascii_content(&text);
        let n = content.len();
        let r = self.create_file(file_path, content.as_slice(), 0, n, chroot);
        proof {
            assert(content@.subrange(0, n as int) =~= ascii_bytes(dtext));
        }
        r
    }

    /// Records a character-device placeholder with contents `"c <major> <minor>"`.
    pub fn create_character_device(
        &mut self,
        file_path: &String,
        major: usize,
        minor: usize,
        chroot: &String,
    ) -> (r: bool)
        requires
            old(self).wf(),
        ensures
            final(self).wf(),
            ({
                let k = spec_chrooted_path(file_path@, chroot@);
                let content = ascii_bytes(device_text('c', major as int, minor as int));
                &&& r == !old(self)@.dom().contains(k)
                &&& (r ==> final(self)@ == old(self)@.insert(
                    k,
                    NodeData {
                        kind: NodeKind::Regular,
                        content,
                        link_target: Seq::<char>::empty(),
                        exec_bit: false,
                    },
                ))
                &&& (!r ==> final(self)@ == old(self)@)
            }),
    {
        proof {
            reveal_strlit("c");
            assert("c"@ =~= seq!['c']);
        }
        self.create_device(file_path, "c", major, minor, chroot)
    }

    /// Records a block-device placeholder with contents `"b <major> <minor>"`.
    pub fn create_block_device(
        &mut self,
        file_path: &String,
        major: usize,
        minor: usize,
        chroot: &String,
    ) -> (r: bool)
        requires
            old(self).wf(),
        ensures
            final(self).wf(),
            ({
                let k = spec_chrooted_path(file_path@, chroot@);
                let content = ascii_bytes(device_text('b', major as int, minor as int));
                &&& r == !old(self)@.dom().contains(k)
                &&& (r ==> final(self)@ == old(self)@.insert(
                    k,
                    NodeData {
                        kind: NodeKind::Regular,
                        content,
                        link_target: Seq::<char>::empty(),
                        exec_bit: false,
                    },
                ))
                &&& (!r ==> final(self)@ == old(self)@)
            }),
    {
        proof {
            reveal_strlit("b");
            assert("b"@ =~= seq!['b']);
        }
        self.create_device(file_path, "b", major, minor, chroot)
    }

    /// Records a fifo placeholder whose contents are the word `fifo`.
    pub fn create_fifo(&mut self, file_path: &String, chroot: &String) -> (r: bool)
        requires
            old(self).wf(),
        ensures
            final(self).wf(),
            ({
                let k = spec_chrooted_path(file_path@, chroot@);
                let content = ascii_bytes(seq!['f', 'i', 'f', 'o']);
                &&& r == !old(self)@.dom().contains(k)
                &&& (r ==> final(self)@ == old(self)@.insert(
                    k,
                    NodeData {
                        kind: NodeKind::Regular,
                        content,
                        link_target: Seq::<char>::empty(),
                        exec_bit: false,
                    },
                ))
                &&& (!r ==> final(self)@ == old(self)@)
            }),
    {
        proof {
            reveal_strlit("fifo");
            assert("fifo"@ =~= seq!['f', 'i', 'f', 'o']);
        }
        let text = String::from_str("fifo");
        let content = ascii_content(&text);
        let n = content.len();
        let r = self.create_file(file_path, content.as_slice(), 0, n, chroot);
        proof {
            assert(content@.subrange(0, n as int) =~= ascii_bytes(seq!['f', 'i', 'f', 'o']));
        }
        r
    }

    /// Records a socket placeholder whose contents are the word `socket`.
    pub fn create_socket(&mut self, file_path: &String, chroot: &String) -> (r: bool)
        requires
            old(self).wf(),
        ensures
            final(self).wf(),
            ({
                let k = spec_chrooted_path(file_path@, chroot@);
                let content = ascii_bytes(seq!['s', 'o', 'c', 'k', 'e', 't']);
                &&& r == !old(self)@.dom().contains(k)
                &&& (r ==> final(self)@ == old(self)@.insert(
                    k,
                    NodeData {
                        kind: NodeKind::Regular,
                        content,
                        link_target: Seq::<char>::empty(),
                        exec_bit: false,
                    },
                ))
                &&& (!r ==> final(self)@ == old(self)@)
            }),
    {
        proof {
            reveal_strlit("socket");
            assert("socket"@ =~= seq!['s', 'o', 'c', 'k', 'e', 't']);
        }
        let text = String::from_str("socket");
        let content = ascii_content(&text);
        let n = content.len();
        let r = self.create_file(file_path, content.as_slice(), 0, n, chroot);
        proof {
            assert(content@.subrange(0, n as int)
                =~= ascii_bytes(seq!['s', 'o', 'c', 'k', 'e', 't']));
        }
        r
    }
}

/// The stored target a created symlink will get, computed without
/// touching any ledger: the confinement decision itself.
pub fn symlink_target_path(symlink: &String, target: &String, chroot: &String) -> (r: String)
    ensures
        r@ == spec_symlink_target(symlink@, target@, chroot@),
{
    let safe_symlink = chrooted_path(symlink, chroot);
    let tlen: usize = target.as_str().unicode_len();
    let absolute: bool = tlen > 0 && target.as_str().get_char(0) == '/';
    if absolute {
        chrooted_path(target, chroot)
    } else {
        let relative_dir = parent_of(&safe_symlink);
        safe_path_join(&relative_dir, target, chroot)
    }
}

impl Sandbox {
    /// Whether anything is recorded at the given (already confined) path.
    pub fn contains_path(&self, path: &String) -> (r: bool)
        requires
            self.wf(),
        ensures
            r == self@.dom().contains(path@),
    {
        match self.find(path) {
            Option::Some(_) => true,
            Option::None => false,
        }
    }

    /// The kind of the entity recorded at the given confined path.
    pub fn lookup_kind(&self, path: &String) -> (r: Option<NodeKind>)
        requires
            self.wf(),
        ensures
            match r {
                Option::Some(k) => self@.dom().contains(path@) && self@[path@].kind == k,
                Option::None => !self@.dom().contains(path@),
            },
    {
        match self.find(path) {
            Option::Some(i) => Option::Some(self.nodes[i].kind),
            Option::None => Option::None,
        }
    }

    /// The bytes recorded for the entity at the given confined path.
    pub fn lookup_content(&self, path: &String) -> (r: Option<Vec<u8>>)
        requires
            self.wf(),
        ensures
            match r {
                Option::Some(v) => self@.dom().contains(path@)
                    && v@ == self@[path@].content,
                Option::None => !self@.dom().contains(path@),
            },
    {
        match self.find(path) {
            Option::None => Option::None,
            Option::Some(i) => {
                let src: &Vec<u8> = &self.nodes[i].content;
                let mut v: Vec<u8> = Vec::new();
                let n = src.len();
                let mut t: usize = 0;
                while t < n
                    invariant
                        n == src@.len(),
                        t <= n,
                        v@ == src@.take(t as int),
                    decreases n - t,
                {
                    v.push(src[t]);
                    proof {
                        assert(v@ =~= src@.take(t as int + 1));
                    }
                    t = t + 1;
                }
                proof {
                    assert(src@.take(n as int) =~= src@);
                }
                Option::Some(v)
            }
        }
    }

    /// The stored target of the symlink recorded at the given confined path.
    pub fn lookup_link_target(&self, path: &String) -> (r: Option<String>)
        requires
            self.wf(),
        ensures
            match r {
                Option::Some(t) => self@.dom().contains(path@)
                    && t@ == self@[path@].link_target,
                Option::None => !self@.dom().contains(path@),
            },
    {
        match self.find(path) {
            Option::Some(i) => Option::Some(self.nodes[i].link_target.clone()),
            Option::None => Option::None,
        }
    }
}

/// Symlink escape resistance: whatever target an archive supplies, the
/// stored target of a created symlink stays inside the chroot directory
/// and contains no traversal part.
pub proof fn lemma_symlink_target_contained(
    symlink: Seq<char>,
    target: Seq<char>,
    chroot: Seq<char>,
)
    requires
        no_double_sep(chroot),
        no_dotdot_part(chroot),
    ensures
        is_path_prefix(chroot, spec_symlink_target(symlink, target, chroot)),
        no_dotdot_part(spec_symlink_target(symlink, target, chroot)),
{
    if target.len() > 0 && target[0] == '/' {
        lemma_safe_join_contained(target, Seq::<char>::empty(), chroot);
        lemma_safe_join_no_dotdot(target, Seq::<char>::empty(), chroot);
    } else {
        let parent = spec_parent_of(spec_chrooted_path(symlink, chroot));
        lemma_safe_join_contained(parent, target, chroot);
        lemma_safe_join_no_dotdot(parent, target, chroot);
    }
}

/// No overwrite: once a file has been created at a confined path, a second
/// `create_file` at the same path and chroot cannot succeed, whatever data
/// range it brings.
pub proof fn lemma_create_file_no_overwrite(
    m: Map<Seq<char>, NodeData>,
    file_path: Seq<char>,
    chroot: Seq<char>,
    d: NodeData,
    len1: int,
    start1: int,
    size1: int,
    len2: int,
    start2: int,
    size2: int,
)
    requires
        create_file_ok(m, file_path, chroot, len1, start1, size1),
    ensures
        !create_file_ok(
            m.insert(spec_chrooted_path(file_path, chroot), d),
            file_path,
            chroot,
            len2,
            start2,
            size2,
        ),
{
}

} // verus!

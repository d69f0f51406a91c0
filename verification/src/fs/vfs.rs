use vstd::prelude::*;
use vstd::string::{StrSliceExecFns, StringExecFns};
use crate::utils::text::{split_on, lemma_split_at_separator, lemma_split_component, lemma_split_not_empty, lemma_split_without_separator, lemma_split_append_piece};

verus! {

/// A directory of the virtual file system: its name and the node it sits in. The nodes of
/// a file system are numbered in the order of their creation; a node's children are the
/// nodes whose parent it is, in that order.
pub struct RamfsNode {
    pub name: String,
    pub parent: Option<usize>,
}

/// A path without its leading slash, if it has one.
pub open spec fn relative_part(path: Seq<char>) -> Seq<char> {
    if path.len() > 0 && path[0] == '/' {
        path.subrange(1, path.len() as int)
    } else {
        path
    }
}

/// The nodes of a file system are numbered so that each parent comes before its children.
pub open spec fn nodes_wf(nodes: Seq<RamfsNode>) -> bool {
    forall|i: int| 0 <= i < nodes.len() ==> match (#[trigger] nodes[i]).parent {
        Some(p) => p < i,
        None => true,
    }
}

/// `j` is the first child of `node` named `name`.
pub open spec fn is_first_child_named(nodes: Seq<RamfsNode>, node: int, name: Seq<char>, j: int) -> bool {
    &&& 0 <= j < nodes.len()
    &&& nodes[j].parent == Some(node as usize)
    &&& nodes[j].name@ == name
    &&& forall|k: int| 0 <= k < j && #[trigger] nodes[k].parent == Some(node as usize) ==> nodes[k].name@ != name
}

/// The first child of `node` named `name`, if there is one.
pub open spec fn child_named(nodes: Seq<RamfsNode>, node: int, name: Seq<char>) -> Option<int> {
    if exists|j: int| is_first_child_named(nodes, node, name, j) {
        Some(choose|j: int| is_first_child_named(nodes, node, name, j))
    } else {
        None
    }
}

/// The node reached from `node` by following the components of `components` from child to
/// child, if every one of them is found.
pub open spec fn resolve(nodes: Seq<RamfsNode>, node: int, components: Seq<Seq<char>>) -> Option<int>
    decreases components.len(),
{
    if components.len() == 0 {
        Some(node)
    } else {
        match child_named(nodes, node, components[0]) {
            Some(child) => resolve(nodes, child, components.drop_first()),
            None => None,
        }
    }
}

/// The nodes from the topmost ancestor of `node` down to `node`.
pub open spec fn ancestry(nodes: Seq<RamfsNode>, node: usize) -> Seq<usize>
    decreases node,
{
    if node < nodes.len() {
        match nodes[node as int].parent {
            Some(p) => if p < node {
                ancestry(nodes, p).push(node)
            } else {
                seq![node]
            },
            None => seq![node],
        }
    } else {
        seq![node]
    }
}

/// Each of `path`'s nodes as a slash followed by its name.
pub open spec fn joined_names(nodes: Seq<RamfsNode>, path: Seq<usize>) -> Seq<char>
    decreases path.len(),
{
    if path.len() == 0 {
        Seq::empty()
    } else {
        joined_names(nodes, path.drop_last()) + seq!['/'] + nodes[path.last() as int].name@
    }
}

/// The absolute path of `node`: "/" for a node named so, otherwise its ancestors below the
/// topmost one and itself, each after a slash.
pub open spec fn absolute_path(nodes: Seq<RamfsNode>, node: usize) -> Seq<char> {
    if nodes[node as int].name@ == seq!['/'] {
        seq!['/']
    } else {
        joined_names(nodes, ancestry(nodes, node).drop_first())
    }
}

/// A tree of directories, numbered in the order of their creation; node 0 is the root.
pub struct Vfs {
    nodes: Vec<RamfsNode>,
}

impl Vfs {
    /// The nodes, in the order of their creation.
    pub closed spec fn nodes(&self) -> Seq<RamfsNode> {
        self.nodes@
    }

    pub closed spec fn wf(&self) -> bool {
        self.nodes@.len() >= 1 && nodes_wf(self.nodes@)
    }

    /// The root directory "/", with the directories "." and ".." in it.
    pub fn init() -> (r: Vfs)
        ensures
            r.wf(),
            r.nodes().len() == 3,
            r.nodes()[0].name@ == seq!['/'] && r.nodes()[0].parent is None,
            r.nodes()[1].name@ == seq!['.'] && r.nodes()[1].parent == Some(0usize),
            r.nodes()[2].name@ == seq!['.', '.'] && r.nodes()[2].parent == Some(0usize),
            well_named(r.nodes()),
    {
        let root_node = RamfsNode { name: String::from_str("/"), parent: None };
        let current_directory = RamfsNode { name: String::from_str("."), parent: Some(0) };
        let previous_directory = RamfsNode { name: String::from_str(".."), parent: Some(0) };
        let mut nodes: Vec<RamfsNode> = Vec::new();
        nodes.push(root_node);
        nodes.push(current_directory);
        nodes.push(previous_directory);
        proof {
            reveal_strlit("/");
            reveal_strlit(".");
            reveal_strlit("..");
            let ns = nodes@;
            assert(ns[1].name@ =~= seq!['.']);
            assert(ns[2].name@ =~= seq!['.', '.']);
            assert forall|i: int, k: int| 1 <= i < ns.len() && 0 <= k < ns[i].name@.len() implies #[trigger] ns[i].name@[k] != '/' by {
                if i == 1 {
                } else {
                    assert(k == 0 || k == 1);
                }
            }
            assert(ns[1].name@ != ns[2].name@) by {
                assert(ns[1].name@.len() != ns[2].name@.len());
            }
        }
        Vfs { nodes }
    }

    /// The root directory.
    pub fn root_directory(&self) -> (r: usize)
        ensures
            r == 0,
    {
        0
    }

    /// Creates a directory named `name` in `parent`.
    pub fn add_child_node(&mut self, parent: usize, name: &str)
        requires
            old(self).wf(),
            parent < old(self).nodes().len(),
        ensures
            final(self).wf(),
            final(self).nodes().len() == old(self).nodes().len() + 1,
            final(self).nodes().drop_last() == old(self).nodes(),
            final(self).nodes().last().name@ == name@,
            final(self).nodes().last().parent == Some(parent),
            well_named(old(self).nodes()) && (forall|k: int| 0 <= k < name@.len() ==> name@[k] != '/')
                && (forall|k: int|
                0 <= k < old(self).nodes().len() && #[trigger] old(self).nodes()[k].parent == Some(parent)
                    ==> old(self).nodes()[k].name@ != name@) ==> well_named(final(self).nodes()),
    {
        let child = RamfsNode { name: String::from_str(name), parent: Some(parent) };
        self.nodes.push(child);
        proof {
            let before = old(self).nodes@;
            let ns = self.nodes@;
            assert(ns.drop_last() =~= before);
            assert(forall|i: int| 0 <= i < before.len() ==> #[trigger] ns[i] == before[i]);
            if well_named(before) && (forall|k: int| 0 <= k < name@.len() ==> name@[k] != '/') && (forall|k: int|
                0 <= k < before.len() && #[trigger] before[k].parent == Some(parent) ==> before[k].name@ != name@) {
                let last = before.len() as int;
                assert(ns[last] == child);
                assert forall|i: int, j: int|
                    #![trigger ns[i], ns[j]]
                    1 <= i < ns.len() && 1 <= j < ns.len() && i != j && ns[i].parent == ns[j].parent
                        implies ns[i].name@ != ns[j].name@ by {
                    if i == last {
                        assert(before[j].parent == Some(parent));
                    } else if j == last {
                        assert(before[i].parent == Some(parent));
                    } else {
                        assert(before[i] == ns[i] && before[j] == ns[j]);
                    }
                }
                assert forall|i: int, k: int|
                    1 <= i < ns.len() && 0 <= k < ns[i].name@.len() implies #[trigger] ns[i].name@[k] != '/' by {
                    if i < last {
                        assert(ns[i] == before[i]);
                    }
                }
                assert forall|i: int| 1 <= i < ns.len() implies (#[trigger] ns[i]).parent is Some by {
                    if i < last {
                        assert(ns[i] == before[i]);
                    }
                }
                assert(nodes_wf(ns)) by {
                    assert forall|i: int| 0 <= i < ns.len() implies match (#[trigger] ns[i]).parent {
                        Some(q) => q < i,
                        None => true,
                    } by {
                        if i < last {
                            assert(ns[i] == before[i]);
                        }
                    }
                }
            }
        }
    }

    /// Finds a node with the specified name in the children of the given node.
    pub fn find_child(&self, node: usize, name: &str) -> (r: Option<usize>)
        ensures
            match r {
                Some(j) => is_first_child_named(self.nodes(), node as int, name@, j as int),
                None => child_named(self.nodes(), node as int, name@) is None,
            },
            r matches Some(j) ==> child_named(self.nodes(), node as int, name@) == Some(j as int),
    {
        let wanted = String::from_str(name);
        let mut j: usize = 0;
        while j < self.nodes.len()
            invariant
                j <= self.nodes@.len(),
                wanted@ == name@,
                forall|k: int|
                    0 <= k < j && #[trigger] self.nodes@[k].parent == Some(node) ==> self.nodes@[k].name@ != name@,
            decreases self.nodes@.len() - j,
        {
            if self.nodes[j].parent == Some(node) && self.nodes[j].name == wanted {
                proof {
                    assert(is_first_child_named(self.nodes(), node as int, name@, j as int));
                    lemma_first_child_unique(self.nodes(), node as int, name@, j as int);
                }
                return Some(j);
            }
            j = j + 1;
        }
        proof {
            assert forall|k: int| !is_first_child_named(self.nodes(), node as int, name@, k) by {
                if 0 <= k < self.nodes@.len() && self.nodes@[k].parent == Some(node) {
                    assert(self.nodes@[k].name@ != name@);
                }
            }
        }
        None
    }

    /// Finds the node at `path` from `node`: the path's components, between slashes, name a
    /// child each in turn. A leading slash is skipped: given "Desktop/someFolder" or
    /// "/Desktop/someFolder" and the node "/home/user", it returns the node at
    /// "/home/user/Desktop/someFolder".
    pub fn find_from_absolute_path(&self, node: usize, path: &str) -> (r: Option<usize>)
        ensures
            match r {
                Some(n) => resolve(self.nodes(), node as int, split_on(relative_part(path@), '/')) == Some(n as int),
                None => resolve(self.nodes(), node as int, split_on(relative_part(path@), '/')) is None,
            },
    {
        let n = path.unicode_len();
        let skip: usize = if n > 0 && path.get_char(0) == '/' {
            1
        } else {
            0
        };
        let ghost s = path@.subrange(skip as int, n as int);
        let ghost whole = resolve(self.nodes(), node as int, split_on(s, '/'));
        proof {
            assert(relative_part(path@) =~= s);
        }
        let mut current: usize = node;
        let mut start: usize = skip;
        let mut i: usize = skip;
        proof {
            assert(s.subrange(0, s.len() as int) =~= s);
        }
        while i < n
            invariant
                n == path@.len(),
                skip <= 1,
                skip <= n,
                s == path@.subrange(skip as int, n as int),
                relative_part(path@) == s,
                skip <= start <= i <= n,
                forall|k: int| start - skip <= k < i - skip ==> s[k] != '/',
                whole == resolve(self.nodes(), node as int, split_on(s, '/')),
                whole == resolve(
                    self.nodes(),
                    current as int,
                    split_on(s.subrange(start - skip, s.len() as int), '/'),
                ),
            decreases n - i,
        {
            let c = path.get_char(i);
            if c == '/' {
                let component = path.substring_char(start, i);
                proof {
                    lemma_split_component(s, start - skip, i - skip, '/');
                    lemma_split_at_separator(s, i - skip, '/');
                    assert(s.subrange(start - skip, i - skip) =~= path@.subrange(start as int, i as int));
                    assert(s.subrange(i - skip, s.len() as int).drop_first() =~= s.subrange(
                        i - skip + 1,
                        s.len() as int,
                    ));
                    let comps = split_on(s.subrange(start - skip, s.len() as int), '/');
                    assert(comps.drop_first() =~= split_on(s.subrange(i - skip + 1, s.len() as int), '/'));
                    assert(comps[0] =~= component@);
                    lemma_split_not_empty(s.subrange(start - skip, s.len() as int), '/');
                }
                match self.find_child(current, component) {
                    Some(found_node) => {
                        current = found_node;
                    },
                    None => {
                        return None;
                    },
                }
                start = i + 1;
            }
            i = i + 1;
        }
        let component = path.substring_char(start, n);
        proof {
            lemma_split_component(s, start - skip, s.len() as int, '/');
            assert(s.subrange(s.len() as int, s.len() as int) =~= Seq::<char>::empty());
            assert(s.subrange(start - skip, s.len() as int) =~= path@.subrange(start as int, n as int));
            let comps = split_on(s.subrange(start - skip, s.len() as int), '/');
            assert(split_on(Seq::<char>::empty(), '/') =~= seq![Seq::<char>::empty()]);
            assert(comps[0] =~= component@);
            assert(comps.drop_first() =~= Seq::<Seq<char>>::empty());
            reveal_with_fuel(resolve, 2);
        }
        match self.find_child(current, component) {
            Some(found_node) => Some(found_node),
            None => None,
        }
    }

    /// The directory that `node` sits in.
    pub fn parent(&self, node: usize) -> (r: Option<usize>)
        requires
            node < self.nodes().len(),
        ensures
            r == self.nodes()[node as int].parent,
    {
        self.nodes[node].parent
    }

    /// The absolute path of the given node.
    pub fn get_absolute_path(&self, node: usize) -> (r: String)
        requires
            self.wf(),
            node < self.nodes().len(),
        ensures
            r@ == absolute_path(self.nodes(), node),
    {
        let root_name = String::from_str("/");
        proof {
            reveal_strlit("/");
            assert("/"@ =~= seq!['/']);
        }
        if self.nodes[node].name == root_name {
            return root_name;
        }
        // Collect the node and its ancestors, from the node up.
        let mut chain: Vec<usize> = Vec::new();
        chain.push(node);
        let mut current_node = node;
        while self.nodes[current_node].parent.is_some()
            invariant
                self.wf(),
                current_node < self.nodes@.len(),
                chain@.len() >= 1,
                chain@.last() == current_node,
                forall|m: int| 0 <= m < chain@.len() ==> #[trigger] chain@[m] < self.nodes@.len(),
                ancestry(self.nodes(), node) == ancestry(self.nodes(), current_node) + chain@.reverse().drop_first(),
            decreases current_node,
        {
            let parent = self.nodes[current_node].parent.unwrap();
            proof {
                assert(self.nodes@[current_node as int].parent == Some(parent));
                assert(ancestry(self.nodes(), current_node) == ancestry(self.nodes(), parent).push(current_node));
                assert(chain@.push(parent).reverse().drop_first() =~= chain@.reverse());
                assert(chain@.reverse() =~= seq![current_node] + chain@.reverse().drop_first()) by {
                    assert(chain@.reverse()[0] == chain@.last());
                }
            }
            chain.push(parent);
            current_node = parent;
        }
        proof {
            assert(ancestry(self.nodes(), current_node) == seq![current_node]);
            assert(ancestry(self.nodes(), node) =~= chain@.reverse());
        }
        // Join the names below the topmost one, from the top down.
        let mut path = String::new();
        let mut k: usize = chain.len() - 1;
        while k > 0
            invariant
                self.wf(),
                k < chain@.len(),
                forall|m: int| 0 <= m < chain@.len() ==> #[trigger] chain@[m] < self.nodes@.len(),
                ancestry(self.nodes(), node) =~= chain@.reverse(),
                path@ == joined_names(
                    self.nodes(),
                    ancestry(self.nodes(), node).subrange(1, (chain@.len() - k) as int),
                ),
            decreases k,
        {
            k = k - 1;
            path.append("/");
            path.append(self.nodes[chain[k]].name.as_str());
            proof {
                reveal_strlit("/");
                let a = ancestry(self.nodes(), node);
                assert(a.subrange(1, (chain@.len() - k) as int).drop_last() =~= a.subrange(1, (chain@.len() - k - 1) as int));
            }
        }
        proof {
            let a = ancestry(self.nodes(), node);
            assert(a.subrange(1, a.len() as int) =~= a.drop_first());
        }
        path
    }
}

/// A directory just created in `parent` is found from `parent` by its name, when the name
/// holds no slash and no other directory in `parent` carries it: `nodes` are the nodes after
/// `add_child_node(parent, name)`, `before` those before it.
pub proof fn lemma_created_child_found(before: Seq<RamfsNode>, nodes: Seq<RamfsNode>, parent: usize, name: Seq<char>)
    requires
        parent < before.len(),
        nodes.len() == before.len() + 1,
        nodes.drop_last() == before,
        nodes.last().name@ == name,
        nodes.last().parent == Some(parent),
        forall|k: int| 0 <= k < name.len() ==> name[k] != '/',
        forall|k: int| 0 <= k < before.len() && #[trigger] before[k].parent == Some(parent) ==> before[k].name@ != name,
    ensures
        resolve(nodes, parent as int, split_on(relative_part(name), '/')) == Some(before.len() as int),
{
    assert(relative_part(name) == name);
    lemma_split_without_separator(name, '/');
    let last = before.len() as int;
    assert(nodes[last] == nodes.last());
    assert forall|k: int| 0 <= k < last && #[trigger] nodes[k].parent == Some(parent) implies nodes[k].name@ != name by {
        assert(nodes[k] == before[k]);
    }
    assert(is_first_child_named(nodes, parent as int, name, last));
    lemma_first_child_unique(nodes, parent as int, name, last);
    let comps = split_on(relative_part(name), '/');
    assert(comps =~= seq![name]);
    assert(comps.drop_first() =~= Seq::<Seq<char>>::empty());
    assert(resolve(nodes, last, comps.drop_first()) == Some(last));
    assert(child_named(nodes, parent as int, comps[0]) == Some(last));
}

/// The names of the nodes of `path`, in order.
pub open spec fn names_along(nodes: Seq<RamfsNode>, path: Seq<usize>) -> Seq<Seq<char>> {
    Seq::new(path.len(), |k: int| nodes[path[k] as int].name@)
}

/// A tree in which paths name nodes: node 0 alone has no parent, no name below it holds a
/// slash, and no two directories in one directory share a name.
pub open spec fn well_named(nodes: Seq<RamfsNode>) -> bool {
    &&& nodes.len() >= 1
    &&& nodes_wf(nodes)
    &&& nodes[0].parent is None
    &&& forall|i: int| 1 <= i < nodes.len() ==> (#[trigger] nodes[i]).parent is Some
    &&& forall|i: int, k: int|
        1 <= i < nodes.len() && 0 <= k < nodes[i].name@.len() ==> #[trigger] nodes[i].name@[k] != '/'
    &&& forall|i: int, j: int|
        #![trigger nodes[i], nodes[j]]
        1 <= i < nodes.len() && 1 <= j < nodes.len() && i != j && nodes[i].parent == nodes[j].parent
            ==> nodes[i].name@ != nodes[j].name@
}

/// Following one more component is following the others, then that one.
pub proof fn lemma_resolve_push(nodes: Seq<RamfsNode>, node: int, components: Seq<Seq<char>>, c: Seq<char>)
    ensures
        resolve(nodes, node, components.push(c)) == match resolve(nodes, node, components) {
            Some(x) => resolve(nodes, x, seq![c]),
            None => None,
        },
    decreases components.len(),
{
    if components.len() == 0 {
        assert(components.push(c) =~= seq![c]);
    } else {
        assert(components.push(c).drop_first() =~= components.drop_first().push(c));
        assert(components.push(c)[0] == components[0]);
        match child_named(nodes, node, components[0]) {
            Some(child) => {
                lemma_resolve_push(nodes, child, components.drop_first(), c);
            },
            None => {},
        }
    }
}

/// The absolute path of a node other than the root, resolved from the root, leads back to
/// the node: its components are the names of the node's ancestors below the root and of the
/// node itself.
pub proof fn lemma_absolute_path_resolves(nodes: Seq<RamfsNode>, node: usize)
    requires
        well_named(nodes),
        1 <= node < nodes.len(),
    ensures
        split_on(relative_part(absolute_path(nodes, node)), '/') == names_along(
            nodes,
            ancestry(nodes, node).drop_first(),
        ),
        resolve(nodes, 0, split_on(relative_part(absolute_path(nodes, node)), '/')) == Some(
            node as int,
        ),
    decreases node,
{
    let n = node as int;
    let name = nodes[n].name@;
    let p = nodes[n].parent->0;
    assert(nodes[n].parent is Some);
    assert(p < node);
    assert(forall|k: int| 0 <= k < name.len() ==> name[k] != '/');
    if name == seq!['/'] {
        assert(name[0] != '/');
    }
    let anc = ancestry(nodes, node);
    let anc_p = ancestry(nodes, p);
    assert(anc == anc_p.push(node));
    assert(anc_p.len() >= 1) by {
        if p < nodes.len() {
            match nodes[p as int].parent {
                Some(q) => {},
                None => {},
            }
        }
    }
    assert(anc.drop_first() =~= anc_p.drop_first().push(node));
    let before = joined_names(nodes, anc_p.drop_first());
    assert(absolute_path(nodes, node) == joined_names(nodes, anc.drop_first()));
    assert(anc.drop_first().drop_last() =~= anc_p.drop_first());
    assert(joined_names(nodes, anc.drop_first()) == before + seq!['/'] + name);
    assert(names_along(nodes, anc.drop_first()) =~= names_along(nodes, anc_p.drop_first()).push(name));
    // the parent is reached by the names above the node
    if p == 0 {
        assert(anc_p =~= seq![0usize]);
        assert(anc_p.drop_first() =~= Seq::<usize>::empty());
        assert(before =~= Seq::<char>::empty());
        assert(relative_part(absolute_path(nodes, node)) =~= name);
        lemma_split_without_separator(name, '/');
        assert(names_along(nodes, anc_p.drop_first()) =~= Seq::<Seq<char>>::empty());
        assert(resolve(nodes, 0, Seq::<Seq<char>>::empty()) == Some(0int));
    } else {
        lemma_absolute_path_resolves(nodes, p);
        let q = nodes[p as int].name@;
        if q == seq!['/'] {
            assert(q[0] != '/');
        }
        assert(absolute_path(nodes, p) == before);
        assert(anc_p.drop_first().len() >= 1) by {
            assert(nodes[p as int].parent is Some);
            let pp = nodes[p as int].parent->0;
            assert(anc_p == ancestry(nodes, pp).push(p));
        }
        assert(before.len() >= 1 && before[0] == '/') by {
            let path = anc_p.drop_first();
            assert(before == joined_names(nodes, path.drop_last()) + seq!['/'] + nodes[path.last() as int].name@);
            lemma_joined_names_starts_with_slash(nodes, path);
        }
        assert(relative_part(before + seq!['/'] + name) =~= relative_part(before) + seq!['/'] + name);
        lemma_split_append_piece(relative_part(before), name, '/');
    }
    let comps = names_along(nodes, anc_p.drop_first());
    lemma_resolve_push(nodes, 0, comps, name);
    assert(resolve(nodes, 0, comps) == Some(p as int));
    assert forall|k: int| 0 <= k < n && #[trigger] nodes[k].parent == Some(p) implies nodes[k].name@ != name by {
        if k == 0 {
            assert(nodes[0].parent is None);
        } else {
            assert(nodes[k].parent == nodes[n].parent);
        }
    }
    assert(is_first_child_named(nodes, p as int, name, n));
    lemma_first_child_unique(nodes, p as int, name, n);
    assert(seq![name].drop_first() =~= Seq::<Seq<char>>::empty());
    assert(resolve(nodes, n, Seq::<Seq<char>>::empty()) == Some(n));
    assert(resolve(nodes, p as int, seq![name]) == Some(n));
}

/// A nonempty path of nodes, written out, starts with a slash.
proof fn lemma_joined_names_starts_with_slash(nodes: Seq<RamfsNode>, path: Seq<usize>)
    requires
        path.len() >= 1,
    ensures
        joined_names(nodes, path).len() >= 1,
        joined_names(nodes, path)[0] == '/',
    decreases path.len(),
{
    let front = joined_names(nodes, path.drop_last());
    if path.len() > 1 {
        lemma_joined_names_starts_with_slash(nodes, path.drop_last());
    } else {
        assert(front =~= Seq::<char>::empty());
    }
    assert(joined_names(nodes, path) == front + seq!['/'] + nodes[path.last() as int].name@);
}

/// There is at most one first child of a node with a given name.
pub proof fn lemma_first_child_unique(nodes: Seq<RamfsNode>, node: int, name: Seq<char>, j: int)
    requires
        is_first_child_named(nodes, node, name, j),
    ensures
        child_named(nodes, node, name) == Some(j),
{
    let c = choose|k: int| is_first_child_named(nodes, node, name, k);
    assert(is_first_child_named(nodes, node, name, c));
    if c < j {
        assert(nodes[c].parent == Some(node as usize));
    } else if c > j {
        assert(nodes[j].parent == Some(node as usize));
    }
}

} // verus!

//! A trie keyed by normalized path components read basename-first.
//!
//! The index is built once by repeated insertion of canonical paths and then
//! queried many times.  A lookup walks the query's components from the
//! basename, remembers the deepest node that carries paths, and may extend
//! the walk through a chain of single-child nodes when the match is specific
//! enough ("forced completion").

use vstd::prelude::*;
use crate::filetree::components::{reverse_components, rev_components, views_of};

pub mod components;

verus! {

broadcast use vstd::std_specs::vec::group_vec_axioms;

/// A node of the reverse-path trie: the canonical paths whose component
/// sequence ends exactly here, and the children keyed by one component each.
struct Node {
    full_paths: Vec<String>,
    children: Vec<(String, Node)>,
}

/// Mathematical model of a trie node: the recorded canonical paths and the
/// ordered child list, each child keyed by one path component.
pub ghost struct NodeModel {
    pub paths: Seq<Seq<char>>,
    pub children: Seq<(Seq<char>, NodeModel)>,
}

/// The model of a node with no paths and no children.
pub open spec fn empty_model() -> NodeModel {
    NodeModel { paths: Seq::empty(), children: Seq::empty() }
}

/// The index of the first child of `cs` keyed by `key`, or `-1` if none is.
pub open spec fn find_child(cs: Seq<(Seq<char>, NodeModel)>, key: Seq<char>) -> int
    decreases cs.len(),
{
    if cs.len() == 0 {
        -1
    } else if cs.first().0 == key {
        0
    } else if find_child(cs.drop_first(), key) == -1 {
        -1
    } else {
        find_child(cs.drop_first(), key) + 1
    }
}

/// `find_child` returns `-1` exactly when no child is keyed by `key`, and
/// otherwise the first index keyed by it.
pub proof fn lemma_find_child(cs: Seq<(Seq<char>, NodeModel)>, key: Seq<char>)
    ensures
        find_child(cs, key) == -1 ==> forall|k: int|
            0 <= k < cs.len() ==> (#[trigger] cs[k]).0 != key,
        find_child(cs, key) != -1 ==> 0 <= find_child(cs, key) < cs.len()
            && cs[find_child(cs, key)].0 == key,
        find_child(cs, key) != -1 ==> forall|k: int|
            0 <= k < find_child(cs, key) ==> (#[trigger] cs[k]).0 != key,
    decreases cs.len(),
{
    if cs.len() > 0 {
        lemma_find_child(cs.drop_first(), key);
        let j = find_child(cs, key);
        if j == -1 {
            assert forall|k: int| 0 <= k < cs.len() implies (#[trigger] cs[k]).0 != key by {
                if k > 0 {
                    assert(cs.drop_first()[k - 1] == cs[k]);
                }
            }
        } else {
            if j != 0 {
                assert(cs[j] == cs.drop_first()[j - 1]);
            }
            assert forall|k: int| 0 <= k < j implies (#[trigger] cs[k]).0 != key by {
                if k > 0 {
                    assert(cs.drop_first()[k - 1] == cs[k]);
                }
            }
        }
    }
}

/// The result of inserting `path` below `m` along the components `comps`:
/// the walk descends (creating nodes as needed) and records `path` at the
/// node where `comps` runs out.
pub open spec fn insert_model(m: NodeModel, comps: Seq<Seq<char>>, path: Seq<char>) -> NodeModel
    decreases comps.len(),
{
    if comps.len() == 0 {
        NodeModel { paths: m.paths.push(path), children: m.children }
    } else {
        let j = find_child(m.children, comps.first());
        if j == -1 {
            NodeModel {
                paths: m.paths,
                children: m.children.push(
                    (comps.first(), insert_model(empty_model(), comps.drop_first(), path)),
                ),
            }
        } else {
            NodeModel {
                paths: m.paths,
                children: m.children.update(
                    j,
                    (comps.first(), insert_model(m.children[j].1, comps.drop_first(), path)),
                ),
            }
        }
    }
}

/// The walk of `comps` from `m`: the node where the walk stops (at the first
/// missing child or when `comps` runs out), the number of components matched,
/// and the paths of the deepest path-carrying node visited (empty if none).
pub open spec fn walk_model(m: NodeModel, comps: Seq<Seq<char>>) -> (NodeModel, nat, Seq<Seq<char>>)
    decreases comps.len(),
{
    if comps.len() == 0 {
        (m, 0 as nat, Seq::empty())
    } else {
        let j = find_child(m.children, comps.first());
        if j == -1 {
            (m, 0 as nat, Seq::empty())
        } else {
            let child = m.children[j].1;
            let r = walk_model(child, comps.drop_first());
            let last = if r.2.len() > 0 {
                r.2
            } else if child.paths.len() > 0 {
                child.paths
            } else {
                Seq::empty()
            };
            (r.0, (r.1 + 1) as nat, last)
        }
    }
}

/// The forced completion from `m`: follow single-child nodes downward and
/// return the first non-empty path set found, or `None` if a node with zero
/// or several children is reached first.
pub open spec fn complete_model(m: NodeModel) -> Option<Seq<Seq<char>>>
    decreases m,
{
    if m.children.len() != 1 {
        None
    } else {
        let c = m.children[0].1;
        if c.paths.len() > 0 {
            Some(c.paths)
        } else {
            complete_model(c)
        }
    }
}

/// The number of matched components a lookup must reach before forced
/// completion is attempted.
pub open spec fn threshold_of(min_matches: Option<usize>) -> int {
    match min_matches {
        Some(n) => n + 1,
        None => 1,
    }
}

/// The result of a lookup: the paths of the deepest matching node, extended
/// by a forced completion when at least `threshold` components matched.
pub open spec fn lookup_model(m: NodeModel, comps: Seq<Seq<char>>, threshold: int) -> Seq<
    Seq<char>,
> {
    let r = walk_model(m, comps);
    if r.1 >= threshold {
        match complete_model(r.0) {
            Some(more) => r.2 + more,
            None => r.2,
        }
    } else {
        r.2
    }
}

/// Well-formedness of a model: within each node the child keys are distinct.
pub open spec fn wf_model(m: NodeModel) -> bool
    decreases m,
{
    &&& forall|i: int, j: int|
        0 <= i < j < m.children.len() ==> (#[trigger] m.children[i]).0 != (
        #[trigger] m.children[j]).0
    &&& forall|i: int| 0 <= i < m.children.len() ==> wf_model((#[trigger] m.children[i]).1)
}

impl Node {
    /// The mathematical model of this node.
    spec fn model(self) -> NodeModel
        decreases self, 1int,
    {
        NodeModel {
            paths: views_of(self.full_paths@),
            children: Node::children_models(self.children@),
        }
    }

    /// The models of a child list, in order.
    spec fn children_models(s: Seq<(String, Node)>) -> Seq<(Seq<char>, NodeModel)>
        decreases s, 0int,
    {
        if s.len() == 0 {
            Seq::empty()
        } else {
            Node::children_models(s.drop_last()).push((s.last().0@, s.last().1.model()))
        }
    }
}

/// Finds the index of the first child of `children` keyed by `key`, if any.
fn find_child_index(children: &Vec<(String, Node)>, key: &String) -> (r: Option<usize>)
    ensures
        match r {
            Some(j) => j < children@.len() && find_child(
                Node::children_models(children@),
                key@,
            ) == j as int,
            None => find_child(Node::children_models(children@), key@) == -1,
        },
{
    let n = children.len();
    let mut j: usize = 0;
    while j < n
        invariant
            j <= n,
            n == children@.len(),
            forall|k: int| 0 <= k < j ==> (#[trigger] children@[k]).0@ != key@,
        decreases n - j,
    {
        if children[j].0 == *key {
            proof {
                lemma_children_models(children@);
                let cs = Node::children_models(children@);
                lemma_find_child(cs, key@);
                assert(cs[j as int].0 == key@);
                assert(forall|k: int|
                    0 <= k < j ==> (#[trigger] cs[k]).0 != key@);
            }
            return Some(j);
        }
        j = j + 1;
    }
    proof {
        lemma_children_models(children@);
        let cs = Node::children_models(children@);
        lemma_find_child(cs, key@);
        assert(forall|k: int| 0 <= k < cs.len() ==> (#[trigger] cs[k]).0 != key@);
    }
    None
}

impl Node {
    /// A node with no paths and no children.
    fn empty() -> (n: Node)
        ensures
            n.model() == empty_model(),
    {
        let n = Node { full_paths: Vec::new(), children: Vec::new() };
        proof {
            assert(n.model().paths =~= empty_model().paths);
            assert(n.model().children =~= empty_model().children);
        }
        n
    }

    /// Descends along `comps[i..]` from this node, creating children as
    /// needed, and records `path` at the node where the components run out.
    fn insert_at(&mut self, comps: &Vec<String>, i: usize, path: String)
        requires
            i <= comps@.len(),
        ensures
            final(self).model() == insert_model(
                old(self).model(),
                views_of(comps@).skip(i as int),
                path@,
            ),
        decreases comps@.len() - i,
    {
        proof {
            lemma_children_models(self.children@);
        }
        if i == comps.len() {
            let ghost pre = *self;
            self.full_paths.push(path);
            proof {
                assert(views_of(self.full_paths@) =~= views_of(pre.full_paths@).push(path@));
                assert(views_of(comps@).skip(i as int) =~= Seq::<Seq<char>>::empty());
            }
        } else {
            let ghost pre = *self;
            let ghost rest = views_of(comps@).skip(i + 1);
            proof {
                assert(views_of(comps@).skip(i as int).first() == comps@[i as int]@);
                assert(views_of(comps@).skip(i as int).drop_first() =~= rest);
            }
            let j: usize = match find_child_index(&self.children, &comps[i]) {
                Some(idx) => idx,
                None => {
                    let ghost children_pre = self.children@;
                    proof {
                        lemma_children_models(children_pre);
                        lemma_find_child(Node::children_models(children_pre), comps@[i as int]@);
                    }
                    self.children.push((comps[i].clone(), Node::empty()));
                    proof {
                        assert(self.children@.drop_last() =~= children_pre);
                        assert(Node::children_models(self.children@)
                            == Node::children_models(children_pre).push(
                            (comps@[i as int]@, empty_model()),
                        ));
                        lemma_children_models(self.children@);
                        lemma_find_child(Node::children_models(self.children@), comps@[i as int]@);
                    }
                    self.children.len() - 1
                }
            };
            let ghost mid = *self;
            let ghost mid_cs = Node::children_models(mid.children@);
            proof {
                lemma_children_models(mid.children@);
                lemma_find_child(mid_cs, comps@[i as int]@);
                assert(j < mid.children@.len());
                assert(find_child(mid_cs, comps@[i as int]@) == j as int);
                assert(mid_cs[j as int].0 == comps@[i as int]@);
            }
            let mut entry = self.children.remove(j);
            entry.1.insert_at(comps, i + 1, path);
            let ghost sub = entry.1.model();
            self.children.insert(j, entry);
            proof {
                assert(self.children@ =~= mid.children@.update(
                    j as int,
                    (mid.children@[j as int].0, self.children@[j as int].1),
                ));
                lemma_children_models(self.children@);
                let cs_new = Node::children_models(self.children@);
                assert(cs_new =~= mid_cs.update(j as int, (comps@[i as int]@, sub)));
                assert(sub == insert_model(mid_cs[j as int].1, rest, path@));
                if find_child(Node::children_models(pre.children@), comps@[i as int]@) == -1 {
                    // the child was created: the spec pushes a fresh subtree
                    assert(mid.children@ =~= pre.children@.push(
                        (mid.children@[j as int].0, mid.children@[j as int].1),
                    ));
                    assert(mid_cs == Node::children_models(pre.children@).push(
                        (comps@[i as int]@, empty_model()),
                    ));
                    assert(cs_new =~= Node::children_models(pre.children@).push(
                        (comps@[i as int]@, insert_model(empty_model(), rest, path@)),
                    ));
                } else {
                    assert(mid.children@ == pre.children@);
                }
                assert(views_of(self.full_paths@) == views_of(pre.full_paths@));
            }
        }
    }
}

impl Node {
    /// Walks `comps[i..]` from this node: returns the node where the walk
    /// stops, the number of components matched, and a reference to the
    /// deepest non-empty path set seen along the walk, if any.
    fn walk<'a>(&'a self, comps: &Vec<String>, i: usize) -> (r: (
        &'a Node,
        usize,
        Option<&'a Vec<String>>,
    ))
        requires
            i <= comps@.len(),
        ensures
            ({
                let w = walk_model(self.model(), views_of(comps@).skip(i as int));
                &&& r.0.model() == w.0
                &&& r.1 as int == w.1
                &&& r.1 <= comps@.len() - i
                &&& (match r.2 {
                    Some(v) => views_of(v@) == w.2 && w.2.len() > 0,
                    None => w.2 == Seq::<Seq<char>>::empty(),
                })
            }),
        decreases comps@.len() - i,
    {
        if i == comps.len() {
            proof {
                assert(views_of(comps@).skip(i as int) =~= Seq::<Seq<char>>::empty());
            }
            return (self, 0, None);
        }
        proof {
            assert(views_of(comps@).skip(i as int).first() == comps@[i as int]@);
            assert(views_of(comps@).skip(i as int).drop_first() =~= views_of(comps@).skip(i + 1));
            lemma_children_models(self.children@);
        }
        match find_child_index(&self.children, &comps[i]) {
            None => (self, 0, None),
            Some(j) => {
                let child = &self.children[j].1;
                proof {
                    assert(child.model() == Node::children_models(self.children@)[j as int].1);
                }
                let r = child.walk(comps, i + 1);
                let last: Option<&Vec<String>> = match r.2 {
                    Some(v) => Some(v),
                    None => {
                        if child.full_paths.len() > 0 {
                            Some(&child.full_paths)
                        } else {
                            None
                        }
                    },
                };
                (r.0, r.1 + 1, last)
            },
        }
    }
}

/// Appends clones of all elements of `src` to `dst`.
fn append_paths(dst: &mut Vec<String>, src: &Vec<String>)
    ensures
        final(dst)@ == old(dst)@ + src@,
{
    let mut k: usize = 0;
    proof {
        assert(old(dst)@ + src@.take(0) =~= old(dst)@);
    }
    while k < src.len()
        invariant
            k <= src@.len(),
            dst@ == old(dst)@ + src@.take(k as int),
        decreases src@.len() - k,
    {
        let ghost pre = dst@;
        dst.push(src[k].clone());
        proof {
            assert(src@.take(k + 1) =~= src@.take(k as int).push(src@[k as int]));
            assert(old(dst)@ + src@.take(k + 1) =~= pre.push(src@[k as int]));
        }
        k = k + 1;
    }
    proof {
        assert(src@.take(src@.len() as int) =~= src@);
    }
}

/// Clones a list of paths.
fn clone_paths(src: &Vec<String>) -> (r: Vec<String>)
    ensures
        r@ == src@,
{
    let mut r: Vec<String> = Vec::new();
    append_paths(&mut r, src);
    proof {
        assert(Seq::<String>::empty() + src@ =~= src@);
    }
    r
}

/// An in-memory index of canonical file paths, keyed by their normalized
/// path components read basename-first, queried with possibly partial or
/// differently-rooted path strings.
pub struct ReverseFileTree {
    root: Node,
}

impl View for ReverseFileTree {
    type V = NodeModel;

    closed spec fn view(&self) -> NodeModel {
        self.root.model()
    }
}

/// The model of inserting every path of `paths` into `m`, in order.
pub open spec fn insert_all_model(m: NodeModel, paths: Seq<Seq<char>>) -> NodeModel
    decreases paths.len(),
{
    if paths.len() == 0 {
        m
    } else {
        insert_all_model(
            insert_model(m, rev_components(paths.first()), paths.first()),
            paths.drop_first(),
        )
    }
}

impl ReverseFileTree {
    /// An empty index.
    pub fn new() -> (tree: Self)
        ensures
            tree@ == empty_model(),
    {
        ReverseFileTree { root: Node::empty() }
    }

    /// Records the canonical path `path` in the index under its normalized
    /// reverse components.  Insertion never fails and never overwrites;
    /// inserting the same path again accumulates a duplicate entry.
    pub fn insert(&mut self, path: &str)
        ensures
            final(self)@ == insert_model(old(self)@, rev_components(path@), path@),
    {
        let comps = reverse_components(path);
        let path_string = path.to_owned();
        proof {
            assert(views_of(comps@).skip(0) =~= rev_components(path@));
        }
        self.root.insert_at(&comps, 0, path_string);
    }

    /// Builds an index containing every path of `paths`, inserted in order.
    pub fn from_iter(paths: &Vec<String>) -> (tree: Self)
        ensures
            tree@ == insert_all_model(empty_model(), views_of(paths@)),
    {
        let mut tree = ReverseFileTree::new();
        let mut k: usize = 0;
        proof {
            assert(views_of(paths@).skip(0) =~= views_of(paths@));
        }
        while k < paths.len()
            invariant
                k <= paths@.len(),
                insert_all_model(tree@, views_of(paths@).skip(k as int)) == insert_all_model(
                    empty_model(),
                    views_of(paths@),
                ),
            decreases paths@.len() - k,
        {
            proof {
                assert(views_of(paths@).skip(k as int).first() == paths@[k as int]@);
                assert(views_of(paths@).skip(k as int).drop_first() =~= views_of(paths@).skip(
                    k + 1,
                ));
            }
            tree.insert(paths[k].as_str());
            k = k + 1;
        }
        proof {
            assert(views_of(paths@).skip(paths@.len() as int) =~= Seq::<Seq<char>>::empty());
        }
        tree
    }

    /// Resolves `path` against the index: walks its reverse components from
    /// the root, returns the paths of the deepest path-carrying node reached,
    /// and, when at least `min_matches + 1` components matched (one, if
    /// `min_matches` is absent), extends the result by the unambiguous forced
    /// completion below the stopping point.
    pub fn lookup(&self, path: &str, min_matches: Option<usize>) -> (matches: Vec<String>)
        ensures
            views_of(matches@) == lookup_model(
                self@,
                rev_components(path@),
                threshold_of(min_matches),
            ),
    {
        let comps = reverse_components(path);
        proof {
            assert(views_of(comps@).skip(0) =~= rev_components(path@));
        }
        let r = self.root.walk(&comps, 0);
        let ghost w = walk_model(self@, rev_components(path@));
        let matched: usize = r.1;
        let mut results: Vec<String> = match r.2 {
            Some(v) => clone_paths(v),
            None => Vec::new(),
        };
        proof {
            assert(views_of(Seq::<String>::empty()) =~= Seq::<Seq<char>>::empty());
            assert(views_of(results@) == w.2);
        }
        let meets = match min_matches {
            Some(n) => matched > n,
            None => matched >= 1,
        };
        if meets {
            let mut cur: &Node = r.0;
            while cur.children.len() == 1
                invariant
                    w == walk_model(self@, rev_components(path@)),
                    threshold_of(min_matches) <= w.1,
                    complete_model(cur.model()) == complete_model(w.0),
                    views_of(results@) == w.2,
                decreases *cur,
            {
                let next = &cur.children[0].1;
                proof {
                    lemma_children_models(cur.children@);
                    assert(next.model() == cur.model().children[0].1);
                }
                if next.full_paths.len() > 0 {
                    proof {
                        assert(complete_model(cur.model()) == Some(next.model().paths));
                    }
                    append_paths(&mut results, &next.full_paths);
                    proof {
                        assert(views_of(results@) =~= w.2 + next.model().paths);
                    }
                    return results;
                }
                proof {
                    assert(complete_model(cur.model()) == complete_model(next.model()));
                }
                cur = next;
            }
            proof {
                lemma_children_models(cur.children@);
                assert(complete_model(cur.model()) is None);
            }
        }
        results
    }
}

/// The model of a child list has the same length as the list and models it
/// index by index.
proof fn lemma_children_models(s: Seq<(String, Node)>)
    ensures
        Node::children_models(s).len() == s.len(),
        forall|i: int|
            0 <= i < s.len() ==> #[trigger] Node::children_models(s)[i] == (
            s[i].0@,
            s[i].1.model(),
            ),
    decreases s.len(),
{
    if s.len() > 0 {
        lemma_children_models(s.drop_last());
        assert(forall|i: int| 0 <= i < s.len() - 1 ==> #[trigger] s.drop_last()[i] == s[i]);
    }
}

/// An empty index is well-formed.
pub proof fn lemma_empty_wf()
    ensures
        wf_model(empty_model()),
{
}

/// Within every node of a freshly built or extended index the child keys
/// stay distinct: insertion preserves well-formedness.
pub proof fn lemma_insert_preserves_wf(m: NodeModel, comps: Seq<Seq<char>>, path: Seq<char>)
    requires
        wf_model(m),
    ensures
        wf_model(insert_model(m, comps, path)),
    decreases comps.len(),
{
    if comps.len() > 0 {
        let key = comps.first();
        let j = find_child(m.children, key);
        lemma_find_child(m.children, key);
        let m2 = insert_model(m, comps, path);
        if j == -1 {
            assert(wf_model(empty_model()));
            lemma_insert_preserves_wf(empty_model(), comps.drop_first(), path);
            let sub = insert_model(empty_model(), comps.drop_first(), path);
            assert(m2.children == m.children.push((key, sub)));
            assert forall|a: int, b: int| 0 <= a < b < m2.children.len() implies (
            #[trigger] m2.children[a]).0 != (#[trigger] m2.children[b]).0 by {
                if b < m.children.len() {
                    assert(m.children[a].0 != m.children[b].0);
                } else {
                    assert(m.children[a].0 != key);
                }
            }
            assert forall|a: int| 0 <= a < m2.children.len() implies wf_model(
                (#[trigger] m2.children[a]).1,
            ) by {
                if a < m.children.len() {
                    assert(wf_model(m.children[a].1));
                }
            }
        } else {
            assert(wf_model(m.children[j].1));
            lemma_insert_preserves_wf(m.children[j].1, comps.drop_first(), path);
            let sub = insert_model(m.children[j].1, comps.drop_first(), path);
            assert(m2.children == m.children.update(j, (key, sub)));
            assert forall|a: int, b: int| 0 <= a < b < m2.children.len() implies (
            #[trigger] m2.children[a]).0 != (#[trigger] m2.children[b]).0 by {
                assert(m.children[a].0 != m.children[b].0);
            }
            assert forall|a: int| 0 <= a < m2.children.len() implies wf_model(
                (#[trigger] m2.children[a]).1,
            ) by {
                if a != j {
                    assert(wf_model(m.children[a].1));
                }
            }
        }
    }
}

/// The model of a single-branch index: a chain of nodes along `comps`, with
/// `paths` recorded at its end and no paths anywhere else.
spec fn chain_model(comps: Seq<Seq<char>>, paths: Seq<Seq<char>>) -> NodeModel
    decreases comps.len(),
{
    if comps.len() == 0 {
        NodeModel { paths: paths, children: Seq::empty() }
    } else {
        NodeModel {
            paths: Seq::empty(),
            children: seq![(comps.first(), chain_model(comps.drop_first(), paths))],
        }
    }
}

/// Inserting a path into an empty index builds a single branch.
proof fn lemma_insert_empty_chain(comps: Seq<Seq<char>>, path: Seq<char>)
    ensures
        insert_model(empty_model(), comps, path) == chain_model(comps, seq![path]),
    decreases comps.len(),
{
    if comps.len() == 0 {
        assert(Seq::<Seq<char>>::empty().push(path) =~= seq![path]);
    } else {
        lemma_insert_empty_chain(comps.drop_first(), path);
        assert(Seq::<(Seq<char>, NodeModel)>::empty().push(
            (comps.first(), chain_model(comps.drop_first(), seq![path])),
        ) =~= seq![(comps.first(), chain_model(comps.drop_first(), seq![path]))]);
    }
}

/// Inserting a path along the components of an existing single branch
/// appends it to the paths recorded at the branch's end.
proof fn lemma_insert_chain_again(comps: Seq<Seq<char>>, paths: Seq<Seq<char>>, path: Seq<char>)
    ensures
        insert_model(chain_model(comps, paths), comps, path) == chain_model(
            comps,
            paths.push(path),
        ),
    decreases comps.len(),
{
    if comps.len() > 0 {
        let m = chain_model(comps, paths);
        assert(find_child(m.children, comps.first()) == 0);
        lemma_insert_chain_again(comps.drop_first(), paths, path);
        assert(m.children.update(
            0,
            (comps.first(), chain_model(comps.drop_first(), paths.push(path))),
        ) =~= seq![(comps.first(), chain_model(comps.drop_first(), paths.push(path)))]);
    }
}

/// Walking a single branch along its own components matches every component,
/// ends at the branch's final node, and remembers the paths recorded there.
proof fn lemma_walk_chain(comps: Seq<Seq<char>>, paths: Seq<Seq<char>>)
    requires
        paths.len() > 0,
    ensures
        ({
            let w = walk_model(chain_model(comps, paths), comps);
            &&& w.0.children.len() == 0
            &&& w.1 == comps.len()
            &&& (comps.len() > 0 ==> w.2 == paths)
            &&& (comps.len() == 0 ==> w.2 == Seq::<Seq<char>>::empty())
        }),
    decreases comps.len(),
{
    if comps.len() > 0 {
        let m = chain_model(comps, paths);
        assert(find_child(m.children, comps.first()) == 0);
        lemma_walk_chain(comps.drop_first(), paths);
    }
}

/// ROUND TRIP LAW: in an index built from a path alone, looking that path up
/// without a specificity threshold returns exactly that path.  (A path whose
/// normalized component sequence is empty, such as `.`, is recorded at the
/// root, which lookups never report.)
pub proof fn lemma_round_trip(path: Seq<char>)
    requires
        rev_components(path).len() > 0,
    ensures
        lookup_model(
            insert_model(empty_model(), rev_components(path), path),
            rev_components(path),
            threshold_of(None),
        ) == seq![path],
{
    let comps = rev_components(path);
    lemma_insert_empty_chain(comps, path);
    lemma_walk_chain(comps, seq![path]);
}

/// AMBIGUITY LAW: when two inserted path strings normalize to the same
/// non-empty component sequence, every lookup whose walk reaches their node
/// reports both strings together, whatever the specificity threshold.
pub proof fn lemma_ambiguous_paths(p: Seq<char>, q: Seq<char>, threshold: int)
    requires
        rev_components(q) == rev_components(p),
        rev_components(p).len() > 0,
    ensures
        lookup_model(
            insert_model(insert_model(empty_model(), rev_components(p), p), rev_components(q), q),
            rev_components(p),
            threshold,
        ) == seq![p, q],
{
    let comps = rev_components(p);
    lemma_insert_empty_chain(comps, p);
    lemma_insert_chain_again(comps, seq![p], q);
    assert(seq![p].push(q) =~= seq![p, q]);
    lemma_walk_chain(comps, seq![p, q]);
}

} // verus!


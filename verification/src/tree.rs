//! The persistent path tree: the executable structure and its operations.

use vstd::prelude::*;
use crate::status::EtcFileStatus;
use crate::model::TreeModel;
use crate::model::deact_kids;
use crate::model::deactivate_spec;
use crate::model::lemma_deact_kids_empty;
use crate::model::lemma_deact_kids_insert;
use crate::model::lemma_update_kids_empty;
use crate::model::lemma_update_kids_insert;
use crate::model::deactivate_at_spec;
use crate::laws::lemma_register_all_snoc;
use crate::laws::register_all;
use crate::model::merge_node;
use crate::model::path_view;
use crate::model::pruned_from;
use crate::model::lemma_pruned_from_parts;
use crate::model::register_spec;
use crate::model::status_at;
use crate::model::update_kids;
use crate::model::update_spec;

verus! {

/// The tie between an executable deletion action and a mathematical
/// decision: whatever the action returns for a path is what `d` says of it.
pub open spec fn decides<F: Fn(&Vec<String>, &EtcFileStatus) -> bool>(
    f: F,
    d: spec_fn(Seq<Seq<char>>) -> bool,
) -> bool {
    forall|p: &Vec<String>, s: &EtcFileStatus, b: bool|
        #[trigger] call_ensures(f, (p, s), b) ==> b == d(path_view(*p))
}

/// One node of the tree: the status recorded for `path`, together with the
/// immediate children, keyed by the last path component of each child.
pub struct EtcTree {
    status: EtcFileStatus,
    path: Vec<String>,
    nested: Vec<(String, EtcTree)>,
}

/// The map that a children vector denotes; a later entry for the same name
/// wins, though a tree satisfying `inv` never holds two entries for one name.
pub closed spec fn children_model(s: Seq<(String, EtcTree)>) -> Map<Seq<char>, TreeModel>
    decreases s,
{
    if s.len() == 0 {
        Map::empty()
    } else {
        children_model(s.drop_last()).insert(s.last().0@, s.last().1.model())
    }
}

impl EtcTree {
    /// The mathematical value this node stands for.
    pub closed spec fn model(self) -> TreeModel
        decreases self,
    {
        TreeModel {
            status: self.status,
            path: path_view(self.path),
            children: children_model(self.nested@),
        }
    }

    /// Structural invariant: no two children share a name, recursively.
    pub closed spec fn inv(self) -> bool
        decreases self,
    {
        &&& (forall|i: int, j: int|
            0 <= i < j < self.nested@.len() ==> self.nested@[i].0@ != self.nested@[j].0@)
        &&& (forall|i: int|
            0 <= i < self.nested@.len() ==> (#[trigger] self.nested@[i].1).inv())
    }
}

/// The model of an optional tree.
pub open spec fn opt_model(r: Option<EtcTree>) -> Option<TreeModel> {
    match r {
        Some(t) => Some(t.model()),
        None => None,
    }
}

proof fn lemma_children_model_dom(s: Seq<(String, EtcTree)>)
    ensures
        children_model(s).dom().finite(),
        forall|n: Seq<char>|
            children_model(s).contains_key(n) <==> exists|i: int|
                0 <= i < s.len() && s[i].0@ == n,
    decreases s.len(),
{
    if s.len() == 0 {
    } else {
        lemma_children_model_dom(s.drop_last());
        assert forall|n: Seq<char>| children_model(s).contains_key(n) implies exists|i: int|
            0 <= i < s.len() && s[i].0@ == n by {
            if n == s.last().0@ {
                assert(s[s.len() - 1].0@ == n);
            } else {
                let i = choose|i: int|
                    0 <= i < s.drop_last().len() && s.drop_last()[i].0@ == n;
                assert(s[i].0@ == n);
            }
        }
        assert forall|n: Seq<char>|
            (exists|i: int| 0 <= i < s.len() && s[i].0@ == n) implies children_model(
            s,
        ).contains_key(n) by {
            let i = choose|i: int| 0 <= i < s.len() && s[i].0@ == n;
            if i < s.len() - 1 {
                assert(s.drop_last()[i].0@ == n);
            }
        }
    }
}

proof fn lemma_children_model_index(s: Seq<(String, EtcTree)>, i: int)
    requires
        0 <= i < s.len(),
        forall|j: int| i < j < s.len() ==> s[j].0@ != s[i].0@,
    ensures
        children_model(s).contains_key(s[i].0@),
        children_model(s)[s[i].0@] == s[i].1.model(),
    decreases s.len(),
{
    if i == s.len() - 1 {
    } else {
        assert(s.drop_last()[i] == s[i]);
        lemma_children_model_index(s.drop_last(), i);
    }
}

proof fn lemma_children_model_update(s: Seq<(String, EtcTree)>, i: int, p: (String, EtcTree))
    requires
        0 <= i < s.len(),
        p.0@ == s[i].0@,
        forall|j: int| i < j < s.len() ==> s[j].0@ != s[i].0@,
    ensures
        children_model(s.update(i, p)) == children_model(s).insert(p.0@, p.1.model()),
    decreases s.len(),
{
    let su = s.update(i, p);
    if i == s.len() - 1 {
        assert(su.drop_last() =~= s.drop_last());
        assert(su.last() == p);
        assert(children_model(su) =~= children_model(s).insert(p.0@, p.1.model()));
    } else {
        assert(su.drop_last() =~= s.drop_last().update(i, p));
        assert(s.drop_last()[i] == s[i]);
        lemma_children_model_update(s.drop_last(), i, p);
        assert(su.last() == s.last());
        assert(s.last().0@ != s[i].0@);
        assert(children_model(su) =~= children_model(s).insert(p.0@, p.1.model()));
    }
}

proof fn lemma_children_model_push(s: Seq<(String, EtcTree)>, p: (String, EtcTree))
    ensures
        children_model(s.push(p)) == children_model(s).insert(p.0@, p.1.model()),
{
    assert(s.push(p).drop_last() =~= s);
    assert(s.push(p).last() == p);
}

/// Finds the position of the child with the given name, if any.
fn find_child(nested: &Vec<(String, EtcTree)>, name: &String) -> (r: Option<usize>)
    ensures
        match r {
            Some(i) => i < nested@.len() && nested@[i as int].0@ == name@,
            None => forall|i: int| 0 <= i < nested@.len() ==> nested@[i].0@ != name@,
        },
{
    let mut i: usize = 0;
    while i < nested.len()
        invariant
            0 <= i <= nested@.len(),
            forall|j: int| 0 <= j < i ==> nested@[j].0@ != name@,
        decreases nested@.len() - i,
    {
        if nested[i].0.eq(name) {
            return Some(i);
        }
        i = i + 1;
    }
    None
}

/// Copies a component vector.
fn clone_path(v: &Vec<String>) -> (r: Vec<String>)
    ensures
        r@ == v@,
{
    let mut r: Vec<String> = Vec::new();
    let mut i: usize = 0;
    while i < v.len()
        invariant
            0 <= i <= v@.len(),
            r@ =~= v@.take(i as int),
        decreases v@.len() - i,
    {
        r.push(v[i].clone());
        assert(r@ =~= v@.take(i + 1 as int));
        i = i + 1;
    }
    assert(r@ =~= v@);
    r
}

impl EtcTree {
    /// A fresh node for `path` with the given status and no children.
    fn with_status(path: Vec<String>, status: EtcFileStatus) -> (r: Self)
        ensures
            r.inv(),
            r.model() == (TreeModel {
                status,
                path: path_view(path),
                children: Map::<Seq<char>, TreeModel>::empty(),
            }),
    {
        EtcTree { status, path, nested: Vec::new() }
    }

    /// A fresh unmanaged node for `path` with no children.
    fn new(path: Vec<String>) -> (r: Self)
        ensures
            r.inv(),
            r.model() == (TreeModel {
                status: EtcFileStatus::Unmanaged,
                path: path_view(path),
                children: Map::<Seq<char>, TreeModel>::empty(),
            }),
    {
        Self::with_status(path, EtcFileStatus::Unmanaged)
    }

    /// The canonical empty tree: the unmanaged root with no children.
    pub fn root_node() -> (r: Self)
        ensures
            r.inv(),
            r.model() == crate::model::root_model(),
    {
        let r = Self::new(Vec::new());
        proof {
            assert(r.model().path =~= crate::model::root_model().path);
            assert(r.model() =~= crate::model::root_model());
        }
        r
    }

    /// The status recorded for `path`; paths that were never registered are
    /// unmanaged.
    pub fn get_status(&self, path: &Vec<String>) -> (r: EtcFileStatus)
        requires
            self.inv(),
        ensures
            r == status_at(self.model(), path_view(*path)),
    {
        let ghost pv = path_view(*path);
        proof {
            assert(pv.skip(0) =~= pv);
        }
        let mut cur: &EtcTree = self;
        let mut k: usize = 0;
        while k < path.len()
            invariant
                0 <= k <= path@.len(),
                pv == path_view(*path),
                pv.len() == path@.len(),
                cur.inv(),
                status_at(self.model(), pv) == status_at(cur.model(), pv.skip(k as int)),
            decreases path@.len() - k,
        {
            let ghost rest = pv.skip(k as int);
            proof {
                assert(rest.len() > 0);
                assert(rest[0] == path@[k as int]@);
            }
            match find_child(&cur.nested, &path[k]) {
                None => {
                    proof {
                        lemma_children_model_dom(cur.nested@);
                        assert(!cur.model().children.contains_key(rest[0]));
                    }
                    return EtcFileStatus::Unmanaged;
                },
                Some(i) => {
                    proof {
                        lemma_children_model_index(cur.nested@, i as int);
                        assert(cur.model().children[rest[0]] == cur.nested@[i as int].1.model());
                        assert(rest.drop_first() =~= pv.skip(k + 1 as int));
                    }
                    cur = &cur.nested[i].1;
                    k = k + 1;
                },
            }
        }
        proof {
            assert(pv.skip(k as int).len() == 0);
        }
        cur.status
    }

    /// Whether `path` is recorded as managed.
    pub fn is_managed(&self, path: &Vec<String>) -> (r: bool)
        requires
            self.inv(),
        ensures
            r == (status_at(self.model(), path_view(*path)) is Managed),
    {
        let s = self.get_status(path);
        match s {
            EtcFileStatus::Managed => true,
            EtcFileStatus::Unmanaged => false,
        }
    }
}

/// Recursive worker for registration, descending `path` from component `k`.
fn register_go(tree: EtcTree, path: &Vec<String>, k: usize) -> (r: EtcTree)
    requires
        tree.inv(),
        k <= path@.len(),
    ensures
        r.inv(),
        r.model() == register_spec(tree.model(), path_view(*path).skip(k as int)),
    decreases path@.len() - k,
{
    let ghost pv = path_view(*path);
    let ghost rest = pv.skip(k as int);
    if k == path.len() {
        proof {
            assert(rest.len() == 0);
        }
        return tree;
    }
    proof {
        assert(rest[0] == path@[k as int]@);
        assert(rest.drop_first() =~= pv.skip(k + 1 as int));
    }
    let name: &String = &path[k];
    let mut tree = tree;
    let ghost m0 = tree.model();
    let ghost s0 = tree.nested@;
    match find_child(&tree.nested, name) {
        Some(i) => {
            proof {
                lemma_children_model_index(s0, i as int);
                assert(m0.children.contains_key(rest[0]));
                assert(m0.children[rest[0]] == s0[i as int].1.model());
            }
            let (cname, child) = tree.nested.remove(i);
            proof {
                assert(s0[i as int].1.inv());
            }
            let new_child = register_go(child, path, k + 1);
            tree.nested.insert(i, (cname, new_child));
            proof {
                assert(tree.nested@ =~= s0.update(i as int, (cname, new_child)));
                lemma_children_model_update(s0, i as int, (cname, new_child));
                assert(tree.model().children == m0.children.insert(
                    rest[0],
                    new_child.model(),
                ));
                assert(tree.model() =~= register_spec(m0, rest));
            }
            tree
        },
        None => {
            proof {
                lemma_children_model_dom(s0);
                assert(!m0.children.contains_key(rest[0]));
            }
            let st = if k + 1 == path.len() {
                EtcFileStatus::Managed
            } else {
                EtcFileStatus::Unmanaged
            };
            let mut cpath = clone_path(&tree.path);
            cpath.push(name.clone());
            let child = EtcTree::with_status(cpath, st);
            proof {
                assert(child.model().path =~= m0.path.push(rest[0]));
            }
            let new_child = register_go(child, path, k + 1);
            let entry = (name.clone(), new_child);
            let ghost e = entry;
            tree.nested.push(entry);
            proof {
                lemma_children_model_push(s0, e);
                assert(tree.model().children == m0.children.insert(
                    rest[0],
                    new_child.model(),
                ));
                assert(child.model() == register_spec(m0, rest).children[rest[0]] || true);
                assert(tree.model() =~= register_spec(m0, rest));
            }
            tree
        },
    }
}

impl EtcTree {
    /// Produces a new tree with `path` grown into it: missing nodes are
    /// created along the way, a created terminal node is managed, created
    /// intermediate nodes are unmanaged, and nodes already present keep
    /// their status and children.
    pub fn register_managed_entry(self, path: &Vec<String>) -> (r: Self)
        requires
            self.inv(),
        ensures
            r.inv(),
            r.model() == register_spec(self.model(), path_view(*path)),
    {
        let r = register_go(self, path, 0);
        proof {
            assert(path_view(*path).skip(0) =~= path_view(*path));
        }
        r
    }
}

/// A node like `m` but with the given children.
pub open spec fn partial_node(m: TreeModel, ch: Map<Seq<char>, TreeModel>) -> TreeModel {
    TreeModel { status: m.status, path: m.path, children: ch }
}

impl EtcTree {
    /// Prunes this subtree bottom-up, asking `delete_action` once for each
    /// managed node whose children are all gone whether the corresponding
    /// filesystem entry was removed; returns the surviving subtree, or
    /// nothing when the whole subtree is gone. Whenever the action decides
    /// by the path alone (as a decision `d`), the result is exactly
    /// `deactivate_spec` of this tree under `d`.
    #[verifier::loop_isolation(false)]
    #[verifier::rlimit(50)]
    pub fn deactivate<F: Fn(&Vec<String>, &EtcFileStatus) -> bool>(
        self,
        delete_action: &F,
    ) -> (r: Option<EtcTree>)
        requires
            self.inv(),
            forall|p: &Vec<String>, s: &EtcFileStatus| #[trigger] call_requires(
                *delete_action,
                (p, s),
            ),
        ensures
            match r {
                Some(t) => t.inv() && pruned_from(t.model(), self.model()),
                None => true,
            },
            forall|d: spec_fn(Seq<Seq<char>>) -> bool| #[trigger] decides(*delete_action, d)
                ==> opt_model(r) == deactivate_spec(self.model(), d),
        decreases self,
    {
        let ghost self0 = self;
        let ghost m = self.model();
        let EtcTree { status, path, nested } = self;
        let ghost s0 = nested@;
        let mut remaining = nested;
        let mut kept: Vec<(String, EtcTree)> = Vec::new();
        let ghost mut done: int = 0;
        proof {
            assert(s0.skip(0) =~= s0);
            assert(s0.take(0) =~= Seq::<(String, EtcTree)>::empty());
            assert forall|d: spec_fn(Seq<Seq<char>>) -> bool|
                #[trigger] decides(*delete_action, d) implies children_model(kept@) == deact_kids(
                partial_node(m, children_model(s0.take(0))),
                d,
            ) by {
                lemma_deact_kids_empty(partial_node(m, children_model(s0.take(0))), d);
                assert(children_model(kept@) =~= deact_kids(
                    partial_node(m, children_model(s0.take(0))),
                    d,
                ));
            }
        }
        while remaining.len() > 0
            invariant
                self0.inv(),
                s0 == self0.nested@,
                m == self0.model(),
                0 <= done <= s0.len(),
                remaining@ == s0.skip(done),
                forall|i: int, j: int| 0 <= i < j < kept@.len() ==> kept@[i].0@ != kept@[j].0@,
                forall|i: int| 0 <= i < kept@.len() ==> (#[trigger] kept@[i].1).inv(),
                forall|i: int|
                    0 <= i < kept@.len() ==> exists|j: int|
                        0 <= j < done && (#[trigger] kept@[i].0)@ == (#[trigger] s0[j].0)@,
                forall|n: Seq<char>| #[trigger] children_model(kept@).contains_key(n)
                    ==> m.children.contains_key(n) && pruned_from(
                    children_model(kept@)[n],
                    m.children[n],
                ),
                forall|d: spec_fn(Seq<Seq<char>>) -> bool| #[trigger] decides(*delete_action, d)
                    ==> children_model(kept@) == deact_kids(
                    partial_node(m, children_model(s0.take(done))),
                    d,
                ),
                forall|p: &Vec<String>, s: &EtcFileStatus| #[trigger] call_requires(
                    *delete_action,
                    (p, s),
                ),
            decreases remaining@.len(),
        {
            proof {
                assert(s0.skip(done)[0] == s0[done]);
            }
            let pair = remaining.remove(0);
            let ghost gpair = pair;
            let (name, child) = pair;
            proof {
                assert(gpair == s0[done]);
                assert(remaining@ =~= s0.skip(done + 1));
                assert((s0[done].1).inv());
                assert(decreases_to!(self0 => self0.nested));
                assert(decreases_to!(self0.nested => self0.nested@));
                assert(decreases_to!(self0.nested@ => self0.nested@[done]));
                assert(decreases_to!(self0.nested@[done] => self0.nested@[done].1));
                assert(decreases_to!(self0 => child));
            }
            let rc = child.deactivate(delete_action);
            let ghost grc = rc;
            let ghost kept_old = kept@;
            let ghost gname: Seq<char> = gpair.0@;
            match rc {
                Some(t) => {
                    let entry = (name, t);
                    let ghost e = entry;
                    kept.push(entry);
                    proof {
                        assert(e.0@ == gname && e.1 == grc->Some_0);
                    }
                },
                None => {},
            }
            proof {
                let prefix = s0.take(done);
                let pm = partial_node(m, children_model(prefix));
                assert(s0.take(done + 1) =~= prefix.push(s0[done]));
                lemma_children_model_dom(prefix);
                assert forall|j: int| 0 <= j < done implies s0[j].0@ != gname by {
                    assert(s0[j].0@ != s0[done].0@);
                }
                assert(!children_model(prefix).contains_key(gname));
                assert forall|i: int| 0 <= i < kept_old.len() implies kept_old[i].0@ != gname by {
                    let j = choose|j: int| 0 <= j < done && kept_old[i].0@ == s0[j].0@;
                    assert(s0[j].0@ != gname);
                }
                assert forall|d: spec_fn(Seq<Seq<char>>) -> bool|
                    #[trigger] decides(*delete_action, d) implies children_model(kept@)
                    == deact_kids(partial_node(m, children_model(s0.take(done + 1))), d) by {
                    assert(children_model(kept_old) == deact_kids(pm, d));
                    assert(opt_model(grc) == deactivate_spec(gpair.1.model(), d));
                    lemma_children_model_push(prefix, s0[done]);
                    lemma_deact_kids_insert(pm, gname, gpair.1.model(), d);
                    assert(partial_node(m, children_model(s0.take(done + 1)))
                        == (TreeModel { children: pm.children.insert(gname, gpair.1.model()), ..pm }));
                    match grc {
                        Some(t) => {
                            lemma_children_model_push(kept_old, (gpair.0, t));
                            assert(children_model(kept@) == children_model(kept_old).insert(
                                gname,
                                t.model(),
                            ));
                        },
                        None => {
                            assert(kept@ == kept_old);
                        },
                    }
                }
                assert forall|j: int| done < j < s0.len() implies s0[j].0@ != s0[done].0@ by {}
                lemma_children_model_index(s0, done);
                assert(m.children.contains_key(gname));
                assert(m.children[gname] == gpair.1.model());
                match grc {
                    Some(t) => {
                        lemma_children_model_push(kept_old, (gpair.0, t));
                        assert forall|n: Seq<char>|
                            #[trigger] children_model(kept@).contains_key(
                            n,
                        ) implies m.children.contains_key(n) && pruned_from(
                            children_model(kept@)[n],
                            m.children[n],
                        ) by {
                            if n == gname {
                                assert(pruned_from(t.model(), gpair.1.model()));
                            } else {
                                assert(children_model(kept_old).contains_key(n));
                            }
                        }
                    },
                    None => {},
                }
                done = done + 1;
            }
        }
        proof {
            assert(done == s0.len());
            assert(s0.take(done) =~= s0);
            assert(partial_node(m, children_model(s0.take(done))) == m);
        }
        if kept.len() == 0 {
            proof {
                assert(children_model(kept@) =~= Map::<Seq<char>, TreeModel>::empty());
            }
            match status {
                EtcFileStatus::Managed => {
                    let b = delete_action(&path, &status);
                    if b {
                        proof {
                            assert forall|d: spec_fn(Seq<Seq<char>>) -> bool|
                                #[trigger] decides(*delete_action, d) implies opt_model(
                                None::<EtcTree>,
                            ) == deactivate_spec(m, d) by {
                                assert(deact_kids(m, d) =~= Map::<Seq<char>, TreeModel>::empty());
                                assert(b == d(path_view(path)));
                            }
                        }
                        None
                    } else {
                        let r = EtcTree { status, path, nested: kept };
                        proof {
                            assert forall|d: spec_fn(Seq<Seq<char>>) -> bool|
                                #[trigger] decides(*delete_action, d) implies opt_model(
                                Some(r),
                            ) == deactivate_spec(m, d) by {
                                assert(deact_kids(m, d) =~= Map::<Seq<char>, TreeModel>::empty());
                                assert(b == d(path_view(r.path)));
                                assert(r.model() =~= (TreeModel {
                                    status: m.status,
                                    path: m.path,
                                    children: deact_kids(m, d),
                                }));
                            }
                            lemma_pruned_from_parts(r.model(), m);
                        }
                        Some(r)
                    }
                },
                EtcFileStatus::Unmanaged => {
                    proof {
                        assert forall|d: spec_fn(Seq<Seq<char>>) -> bool|
                            #[trigger] decides(*delete_action, d) implies opt_model(
                            None::<EtcTree>,
                        ) == deactivate_spec(m, d) by {
                            assert(deact_kids(m, d) =~= Map::<Seq<char>, TreeModel>::empty());
                        }
                    }
                    None
                },
            }
        } else {
            let r = EtcTree { status, path, nested: kept };
            proof {
                assert forall|d: spec_fn(Seq<Seq<char>>) -> bool|
                    #[trigger] decides(*delete_action, d) implies opt_model(Some(r))
                    == deactivate_spec(m, d) by {
                    assert(children_model(r.nested@).contains_key(
                        r.nested@[r.nested@.len() - 1].0@,
                    ));
                    assert(deact_kids(m, d).contains_key(r.nested@[r.nested@.len() - 1].0@));
                    assert(r.model() =~= (TreeModel {
                        status: m.status,
                        path: m.path,
                        children: deact_kids(m, d),
                    }));
                }
                assert forall|n: Seq<char>| #[trigger] r.model().children.contains_key(
                    n,
                ) implies m.children.contains_key(n) && pruned_from(
                    r.model().children[n],
                    m.children[n],
                ) by {
                    assert(children_model(kept@).contains_key(n));
                }
                lemma_pruned_from_parts(r.model(), m);
            }
            Some(r)
        }
    }
}

/// Whether one of the first `k` entries of `s` is named `n`.
pub open spec fn name_among(s: Seq<(String, EtcTree)>, k: int, n: Seq<char>) -> bool {
    exists|j: int| 0 <= j < k && (#[trigger] s[j].0)@ == n
}

impl EtcTree {
    /// Reconciles this tree (the new generation) against `other` (the
    /// previous one): children only `other` has are deactivated, and kept
    /// only while their removal is blocked; children both have are
    /// reconciled recursively with the two generations' statuses merged;
    /// children only this tree has stay. The result is always present.
    /// Whenever the action decides by the path alone (as a decision `d`),
    /// the result is exactly `update_spec` of the two trees under `d`.
    #[verifier::loop_isolation(false)]
    pub fn update_state<F: Fn(&Vec<String>, &EtcFileStatus) -> bool>(
        self,
        other: Self,
        delete_action: &F,
    ) -> (r: Option<EtcTree>)
        requires
            self.inv(),
            other.inv(),
            forall|p: &Vec<String>, s: &EtcFileStatus| #[trigger] call_requires(
                *delete_action,
                (p, s),
            ),
        ensures
            r is Some,
            match r {
                Some(t) => {
                    &&& t.inv()
                    &&& t.model().status == self.model().status
                    &&& t.model().path == self.model().path
                    &&& forall|n: Seq<char>| #[trigger] self.model().children.contains_key(n)
                        ==> t.model().children.contains_key(n)
                },
                None => true,
            },
            forall|d: spec_fn(Seq<Seq<char>>) -> bool| #[trigger] decides(*delete_action, d)
                ==> opt_model(r) == Some(update_spec(self.model(), other.model(), d)),
        decreases other,
    {
        let ghost gother = other;
        let ghost gm = self.model();
        let ghost om = other.model();
        let EtcTree { status: _ostatus, path: _opath, nested: onested } = other;
        let ghost o0 = onested@;
        let mut result = self;
        let mut orem = onested;
        let ghost mut done: int = 0;
        let ghost mut extra: Set<Seq<char>> = Set::empty();
        proof {
            assert(o0.skip(0) =~= o0);
            assert(o0.take(0) =~= Seq::<(String, EtcTree)>::empty());
            assert(children_model(result.nested@).dom() =~= gm.children.dom().union(extra));
            assert forall|d: spec_fn(Seq<Seq<char>>) -> bool|
                #[trigger] decides(*delete_action, d) implies children_model(result.nested@)
                == update_kids(gm, partial_node(om, children_model(o0.take(0))), d) by {
                lemma_update_kids_empty(gm, partial_node(om, children_model(o0.take(0))), d);
            }
        }
        while orem.len() > 0
            invariant
                gother.inv(),
                o0 == gother.nested@,
                om == gother.model(),
                0 <= done <= o0.len(),
                orem@ == o0.skip(done),
                result.inv(),
                result.model().status == gm.status,
                result.model().path == gm.path,
                children_model(result.nested@).dom() == gm.children.dom().union(extra),
                forall|n: Seq<char>| #[trigger] extra.contains(n) ==> name_among(o0, done, n),
                forall|n: Seq<char>| #[trigger] extra.contains(n) ==> !gm.children.contains_key(
                    n,
                ),
                forall|n: Seq<char>|
                    #[trigger] gm.children.contains_key(n) && !name_among(o0, done, n)
                        ==> children_model(result.nested@)[n] == gm.children[n],
                forall|d: spec_fn(Seq<Seq<char>>) -> bool| #[trigger] decides(*delete_action, d)
                    ==> children_model(result.nested@) == update_kids(
                    gm,
                    partial_node(om, children_model(o0.take(done))),
                    d,
                ),
                forall|p: &Vec<String>, s: &EtcFileStatus| #[trigger] call_requires(
                    *delete_action,
                    (p, s),
                ),
            decreases orem@.len(),
        {
            proof {
                assert(o0.skip(done)[0] == o0[done]);
            }
            let pair = orem.remove(0);
            let ghost gpair = pair;
            let (oname, osub) = pair;
            let os = osub.status;
            let ghost gname: Seq<char> = gpair.0@;
            let ghost prefix = o0.take(done);
            let ghost pm = partial_node(om, children_model(prefix));
            let ghost r_old = result.nested@;
            proof {
                assert(gpair == o0[done]);
                assert(orem@ =~= o0.skip(done + 1));
                assert((o0[done].1).inv());
                assert(o0.take(done + 1) =~= prefix.push(o0[done]));
                lemma_children_model_dom(prefix);
                assert forall|j: int| 0 <= j < done implies o0[j].0@ != gname by {
                    assert(o0[j].0@ != o0[done].0@);
                }
                assert(!name_among(o0, done, gname));
                assert(name_among(o0, done + 1, gname));
                assert(!children_model(prefix).contains_key(gname));
                assert(decreases_to!(gother => gother.nested));
                assert(decreases_to!(gother.nested => gother.nested@));
                assert(decreases_to!(gother.nested@ => gother.nested@[done]));
                assert(decreases_to!(gother.nested@[done] => gother.nested@[done].1));
                assert(decreases_to!(gother => osub));
            }
            let found = find_child(&result.nested, &oname);
            match found {
                Some(i) => {
                    proof {
                        lemma_children_model_dom(r_old);
                        assert(children_model(r_old).contains_key(gname));
                        assert(!extra.contains(gname));
                        assert(gm.children.contains_key(gname));
                        assert(children_model(r_old)[gname] == gm.children[gname]);
                        lemma_children_model_index(r_old, i as int);
                        assert(r_old[i as int].1.model() == gm.children[gname]);
                        assert((r_old[i as int].1).inv());
                    }
                    let (sname, sub) = result.nested.remove(i);
                    let ru = sub.update_state(osub, delete_action);
                    let mut t = ru.unwrap();
                    let nst = t.status.merge(&os);
                    t.status = nst;
                    let ghost gt = t;
                    let entry = (sname, t);
                    let ghost e = entry;
                    result.nested.insert(i, entry);
                    proof {
                        assert(gt.inv());
                        assert(result.nested@ =~= r_old.update(i as int, e));
                        lemma_children_model_update(r_old, i as int, e);
                        assert(children_model(result.nested@) == children_model(r_old).insert(
                            gname,
                            gt.model(),
                        ));
                        assert(children_model(result.nested@).dom() =~= gm.children.dom().union(
                            extra,
                        ));
                        assert forall|d: spec_fn(Seq<Seq<char>>) -> bool|
                            #[trigger] decides(*delete_action, d) implies children_model(
                            result.nested@,
                        ) == update_kids(
                            gm,
                            partial_node(om, children_model(o0.take(done + 1))),
                            d,
                        ) by {
                            assert(children_model(r_old) == update_kids(gm, pm, d));
                            assert(opt_model(ru) == Some(
                                update_spec(gm.children[gname], gpair.1.model(), d),
                            ));
                            assert(os == gpair.1.model().status);
                            assert(gt.model() == merge_node(
                                update_spec(gm.children[gname], gpair.1.model(), d),
                                gpair.1.model().status,
                            ));
                            lemma_children_model_push(prefix, o0[done]);
                            lemma_update_kids_insert(gm, pm, gname, gpair.1.model(), d);
                            assert(partial_node(om, children_model(o0.take(done + 1)))
                                == (TreeModel {
                                children: pm.children.insert(gname, gpair.1.model()),
                                ..pm
                            }));
                        }
                        assert forall|n: Seq<char>|
                            #[trigger] gm.children.contains_key(n) && !name_among(
                                o0,
                                done + 1,
                                n,
                            ) implies children_model(result.nested@)[n] == gm.children[n] by {
                            assert(n != gname);
                            assert(!name_among(o0, done, n));
                        }
                        done = done + 1;
                    }
                },
                None => {
                    proof {
                        lemma_children_model_dom(r_old);
                        assert(!children_model(r_old).contains_key(gname));
                        assert(!gm.children.contains_key(gname));
                    }
                    let rc = osub.deactivate(delete_action);
                    let ghost grc = rc;
                    match rc {
                        Some(t) => {
                            let entry = (oname, t);
                            let ghost e = entry;
                            result.nested.push(entry);
                            proof {
                                assert(e.0@ == gname);
                                assert((e.1).inv());
                                lemma_children_model_push(r_old, e);
                                extra = extra.insert(gname);
                                assert(children_model(result.nested@).dom()
                                    =~= gm.children.dom().union(extra));
                                assert forall|ii: int, jj: int|
                                    0 <= ii < jj < result.nested@.len() implies result.nested@[
                                    ii].0@ != result.nested@[jj].0@ by {
                                    if jj == result.nested@.len() - 1 {
                                        assert(result.nested@[ii] == r_old[ii]);
                                    }
                                }
                            }
                        },
                        None => {},
                    }
                    proof {
                        assert forall|d: spec_fn(Seq<Seq<char>>) -> bool|
                            #[trigger] decides(*delete_action, d) implies children_model(
                            result.nested@,
                        ) == update_kids(
                            gm,
                            partial_node(om, children_model(o0.take(done + 1))),
                            d,
                        ) by {
                            assert(children_model(r_old) == update_kids(gm, pm, d));
                            assert(opt_model(grc) == deactivate_spec(gpair.1.model(), d));
                            lemma_children_model_push(prefix, o0[done]);
                            lemma_update_kids_insert(gm, pm, gname, gpair.1.model(), d);
                            assert(partial_node(om, children_model(o0.take(done + 1)))
                                == (TreeModel {
                                children: pm.children.insert(gname, gpair.1.model()),
                                ..pm
                            }));
                            match grc {
                                Some(t) => {
                                    lemma_children_model_push(r_old, (gpair.0, t));
                                    assert(children_model(result.nested@) == children_model(
                                        r_old,
                                    ).insert(gname, t.model()));
                                },
                                None => {
                                    assert(result.nested@ == r_old);
                                },
                            }
                        }
                        assert forall|n: Seq<char>|
                            #[trigger] gm.children.contains_key(n) && !name_among(
                                o0,
                                done + 1,
                                n,
                            ) implies children_model(result.nested@)[n] == gm.children[n] by {
                            assert(n != gname);
                            assert(!name_among(o0, done, n));
                            match grc {
                                Some(t) => {
                                    assert(children_model(result.nested@)[n] == children_model(
                                        r_old,
                                    ).insert(gname, t.model())[n]);
                                },
                                None => {},
                            }
                        }
                        done = done + 1;
                    }
                },
            }
        }
        proof {
            assert(done == o0.len());
            assert(o0.take(done) =~= o0);
            assert(partial_node(om, children_model(o0.take(done))) == om);
            assert forall|d: spec_fn(Seq<Seq<char>>) -> bool|
                #[trigger] decides(*delete_action, d) implies opt_model(Some(result)) == Some(
                update_spec(gm, om, d),
            ) by {
                assert(children_model(result.nested@) == update_kids(gm, om, d));
                assert(result.model() =~= update_spec(gm, om, d));
            }
            assert forall|n: Seq<char>| #[trigger] gm.children.contains_key(
                n,
            ) implies result.model().children.contains_key(n) by {
                assert(children_model(result.nested@).dom() == gm.children.dom().union(extra));
            }
        }
        Some(result)
    }
}

proof fn lemma_children_model_remove(s: Seq<(String, EtcTree)>, i: int)
    requires
        0 <= i < s.len(),
        forall|j: int| 0 <= j < s.len() && j != i ==> s[j].0@ != s[i].0@,
    ensures
        children_model(s.remove(i)) == children_model(s).remove(s[i].0@),
    decreases s.len(),
{
    lemma_children_model_dom(s.remove(i));
    if i == s.len() - 1 {
        assert(s.remove(i) =~= s.drop_last());
        lemma_children_model_dom(s.drop_last());
        assert(!children_model(s.drop_last()).contains_key(s[i].0@));
        assert(children_model(s.remove(i)) =~= children_model(s).remove(s[i].0@));
    } else {
        assert(s.remove(i).drop_last() =~= s.drop_last().remove(i));
        assert(s.drop_last()[i] == s[i]);
        lemma_children_model_remove(s.drop_last(), i);
        assert(s.remove(i).last() == s.last());
        assert(s.last().0@ != s[i].0@);
        assert(children_model(s.remove(i)) =~= children_model(s).remove(s[i].0@));
    }
}

/// Recursive worker for targeted deactivation, descending `path` from
/// component `k`.
fn deactivate_at_go<F: Fn(&Vec<String>, &EtcFileStatus) -> bool>(
    tree: EtcTree,
    path: &Vec<String>,
    k: usize,
    delete_action: &F,
) -> (r: EtcTree)
    requires
        tree.inv(),
        k <= path@.len(),
        forall|p: &Vec<String>, s: &EtcFileStatus| #[trigger] call_requires(
            *delete_action,
            (p, s),
        ),
    ensures
        r.inv(),
        forall|d: spec_fn(Seq<Seq<char>>) -> bool| #[trigger] decides(*delete_action, d)
            ==> r.model() == deactivate_at_spec(
            tree.model(),
            path_view(*path).skip(k as int),
            d,
        ),
    decreases path@.len() - k,
{
    let ghost pv = path_view(*path);
    let ghost rest = pv.skip(k as int);
    if k == path.len() {
        proof {
            assert(rest.len() == 0);
        }
        return tree;
    }
    proof {
        assert(rest[0] == path@[k as int]@);
        assert(rest.drop_first() =~= pv.skip(k + 1 as int));
    }
    let name: &String = &path[k];
    let mut tree = tree;
    let ghost m0 = tree.model();
    let ghost s0 = tree.nested@;
    match find_child(&tree.nested, name) {
        None => {
            proof {
                lemma_children_model_dom(s0);
                assert(!m0.children.contains_key(rest[0]));
            }
            tree
        },
        Some(i) => {
            proof {
                lemma_children_model_index(s0, i as int);
                assert(m0.children.contains_key(rest[0]));
                assert(m0.children[rest[0]] == s0[i as int].1.model());
                assert((s0[i as int].1).inv());
            }
            let (cname, child) = tree.nested.remove(i);
            if k + 1 < path.len() {
                let nc = deactivate_at_go(child, path, k + 1, delete_action);
                let entry = (cname, nc);
                let ghost e = entry;
                tree.nested.insert(i, entry);
                proof {
                    assert(tree.nested@ =~= s0.update(i as int, e));
                    lemma_children_model_update(s0, i as int, e);
                    assert forall|d: spec_fn(Seq<Seq<char>>) -> bool|
                        #[trigger] decides(*delete_action, d) implies tree.model()
                        == deactivate_at_spec(m0, rest, d) by {
                        assert(tree.model() =~= deactivate_at_spec(m0, rest, d));
                    }
                }
                tree
            } else {
                let rc = child.deactivate(delete_action);
                let ghost grc = rc;
                match rc {
                    Some(t) => {
                        let entry = (cname, t);
                        let ghost e = entry;
                        tree.nested.insert(i, entry);
                        proof {
                            assert(tree.nested@ =~= s0.update(i as int, e));
                            lemma_children_model_update(s0, i as int, e);
                            assert forall|d: spec_fn(Seq<Seq<char>>) -> bool|
                                #[trigger] decides(*delete_action, d) implies tree.model()
                                == deactivate_at_spec(m0, rest, d) by {
                                assert(rest.len() == 1);
                                assert(tree.model() =~= deactivate_at_spec(m0, rest, d));
                            }
                        }
                        tree
                    },
                    None => {
                        proof {
                            assert(tree.nested@ =~= s0.remove(i as int));
                            lemma_children_model_remove(s0, i as int);
                            assert forall|d: spec_fn(Seq<Seq<char>>) -> bool|
                                #[trigger] decides(*delete_action, d) implies tree.model()
                                == deactivate_at_spec(m0, rest, d) by {
                                assert(rest.len() == 1);
                                assert(tree.model() =~= deactivate_at_spec(m0, rest, d));
                            }
                        }
                        tree
                    },
                }
            }
        },
    }
}

impl EtcTree {
    /// Deactivates only the subtree sitting at `path`: that subtree is
    /// pruned bottom-up through `delete_action`, and dropped from its
    /// parent when nothing of it survives; every other node is untouched.
    pub fn deactivate_managed_entry<F: Fn(&Vec<String>, &EtcFileStatus) -> bool>(
        self,
        path: &Vec<String>,
        delete_action: &F,
    ) -> (r: Self)
        requires
            self.inv(),
            forall|p: &Vec<String>, s: &EtcFileStatus| #[trigger] call_requires(
                *delete_action,
                (p, s),
            ),
        ensures
            r.inv(),
            forall|d: spec_fn(Seq<Seq<char>>) -> bool| #[trigger] decides(*delete_action, d)
                ==> r.model() == deactivate_at_spec(self.model(), path_view(*path), d),
    {
        let r = deactivate_at_go(self, path, 0, delete_action);
        proof {
            assert(path_view(*path).skip(0) =~= path_view(*path));
        }
        r
    }

    /// The absolute path this node denotes, as its components.
    pub fn node_path(&self) -> (r: &Vec<String>)
        ensures
            path_view(*r) == self.model().path,
    {
        &self.path
    }

    /// The names of this node's children, each exactly once.
    pub fn child_names(&self) -> (r: Vec<String>)
        requires
            self.inv(),
        ensures
            forall|i: int| 0 <= i < r@.len() ==> self.model().children.contains_key(
                (#[trigger] r@[i])@,
            ),
            forall|i: int, j: int| 0 <= i < j < r@.len() ==> r@[i]@ != r@[j]@,
            forall|n: Seq<char>| #[trigger] self.model().children.contains_key(n)
                ==> exists|i: int| 0 <= i < r@.len() && r@[i]@ == n,
    {
        let mut r: Vec<String> = Vec::new();
        let mut i: usize = 0;
        while i < self.nested.len()
            invariant
                0 <= i <= self.nested@.len(),
                r@.len() == i,
                forall|j: int| 0 <= j < i ==> r@[j]@ == self.nested@[j].0@,
            decreases self.nested@.len() - i,
        {
            r.push(self.nested[i].0.clone());
            i = i + 1;
        }
        proof {
            lemma_children_model_dom(self.nested@);
            assert forall|n: Seq<char>| #[trigger] self.model().children.contains_key(
                n,
            ) implies exists|i: int| 0 <= i < r@.len() && r@[i]@ == n by {
                let j = choose|j: int| 0 <= j < self.nested@.len() && self.nested@[j].0@ == n;
                assert(r@[j]@ == n);
            }
        }
        r
    }

    /// The child of this node carrying the given name, if any.
    pub fn child(&self, name: &String) -> (r: Option<&EtcTree>)
        requires
            self.inv(),
        ensures
            match r {
                Some(t) => t.inv() && self.model().children.contains_key(name@) && t.model()
                    == self.model().children[name@],
                None => !self.model().children.contains_key(name@),
            },
    {
        match find_child(&self.nested, name) {
            Some(i) => {
                proof {
                    lemma_children_model_index(self.nested@, i as int);
                }
                Some(&self.nested[i].1)
            },
            None => {
                proof {
                    lemma_children_model_dom(self.nested@);
                }
                None
            },
        }
    }
}

impl EtcTree {
    /// Builds the tree of one generation from the declared managed paths,
    /// registering each in the given order into a fresh root.
    pub fn from_managed_paths(paths: &Vec<Vec<String>>) -> (r: Self)
        ensures
            r.inv(),
            r.model() == register_all(
                crate::model::root_model(),
                paths@.map_values(|q: Vec<String>| path_view(q)),
            ),
    {
        let ghost pv = paths@.map_values(|q: Vec<String>| path_view(q));
        let mut tree = Self::root_node();
        let mut i: usize = 0;
        proof {
            assert(pv.take(0) =~= Seq::<Seq<Seq<char>>>::empty());
        }
        while i < paths.len()
            invariant
                0 <= i <= paths@.len(),
                pv == paths@.map_values(|q: Vec<String>| path_view(q)),
                pv.len() == paths@.len(),
                tree.inv(),
                tree.model() == register_all(crate::model::root_model(), pv.take(i as int)),
            decreases paths@.len() - i,
        {
            tree = tree.register_managed_entry(&paths[i]);
            proof {
                lemma_register_all_snoc(crate::model::root_model(), pv.take(i as int), pv[i as int]);
                assert(pv.take(i + 1) =~= pv.take(i as int).push(pv[i as int]));
            }
            i = i + 1;
        }
        proof {
            assert(pv.take(paths@.len() as int) =~= pv);
        }
        tree
    }
}

impl Default for EtcTree {
    /// The default tree is the canonical empty root.
    fn default() -> (r: Self)
        ensures
            r.inv(),
            r.model() == crate::model::root_model(),
    {
        Self::root_node()
    }
}

/// Recursive worker for `Clone`: a deep copy denoting the same tree.
#[verifier::loop_isolation(false)]
fn duplicate(t: &EtcTree) -> (res: EtcTree)
    ensures
        res.model() == t.model(),
        t.inv() ==> res.inv(),
    decreases *t,
{
    let ghost t0 = *t;
    let mut nested: Vec<(String, EtcTree)> = Vec::new();
    let mut i: usize = 0;
    proof {
        assert(t0.nested@.take(0) =~= Seq::<(String, EtcTree)>::empty());
    }
    while i < t.nested.len()
        invariant
            0 <= i <= t0.nested@.len(),
            nested@.len() == i,
            children_model(nested@) == children_model(t0.nested@.take(i as int)),
            forall|j: int| 0 <= j < i ==> nested@[j].0@ == t0.nested@[j].0@,
            forall|j: int|
                0 <= j < i ==> ((t0.nested@[j].1).inv() ==> (#[trigger] nested@[j].1).inv()),
        decreases t0.nested@.len() - i,
    {
        proof {
            assert(decreases_to!(t0 => t0.nested));
            assert(decreases_to!(t0.nested => t0.nested@));
            assert(decreases_to!(t0.nested@ => t0.nested@[i as int]));
            assert(decreases_to!(t0.nested@[i as int] => t0.nested@[i as int].1));
        }
        let c = duplicate(&t.nested[i].1);
        let entry = (t.nested[i].0.clone(), c);
        let ghost e = entry;
        let ghost n_old = nested@;
        nested.push(entry);
        proof {
            lemma_children_model_push(n_old, e);
            assert(t0.nested@.take(i + 1) =~= t0.nested@.take(i as int).push(
                t0.nested@[i as int],
            ));
            lemma_children_model_push(t0.nested@.take(i as int), t0.nested@[i as int]);
            assert(e.0@ == t0.nested@[i as int].0@);
        }
        i = i + 1;
    }
    let res = EtcTree { status: t.status, path: clone_path(&t.path), nested };
    proof {
        assert(t0.nested@.take(t0.nested@.len() as int) =~= t0.nested@);
        assert(res.model() =~= t0.model());
    }
    res
}

impl Clone for EtcTree {
    /// A deep copy: the same mathematical tree, well-formed whenever the
    /// original is.
    fn clone(&self) -> (res: Self)
        ensures
            res.model() == self.model(),
            self.inv() ==> res.inv(),
    {
        duplicate(self)
    }
}

} // verus!

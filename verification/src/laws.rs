//! The laws of the tree operations, stated over the model and proved once
//! and for all.

use vstd::prelude::*;
use crate::status::EtcFileStatus;
use crate::model::TreeModel;
use crate::model::deact_kids;
use crate::model::deactivate_spec;
use crate::model::deactivate_at_spec;
use crate::model::exists_at;
use crate::model::merge_node;
use crate::model::no_children;
use crate::model::nonvacant;
use crate::model::update_kids;
use crate::model::update_spec;
use crate::model::register_spec;
use crate::model::root_model;
use crate::model::status_at;
use crate::model::wf;

verus! {

/// Registration changes the status of exactly one path: the registered one,
/// and only when no node for it was present yet; every other path keeps the
/// status it had, and an already present node keeps its status too.
pub proof fn lemma_register_status(g: TreeModel, p: Seq<Seq<char>>, q: Seq<Seq<char>>)
    ensures
        status_at(register_spec(g, p), q) == if p.len() > 0 && q == p && !exists_at(g, p) {
            EtcFileStatus::Managed
        } else {
            status_at(g, q)
        },
    decreases p.len(),
{
    if p.len() == 0 {
    } else {
        let name = p[0];
        let p1 = p.drop_first();
        let child = if g.children.contains_key(name) {
            g.children[name]
        } else {
            TreeModel {
                status: if p.len() == 1 {
                    EtcFileStatus::Managed
                } else {
                    EtcFileStatus::Unmanaged
                },
                path: g.path.push(name),
                children: Map::empty(),
            }
        };
        let r = register_spec(g, p);
        let ghost goal = (status_at(register_spec(g, p), q) == if p.len() > 0 && q == p
            && !exists_at(g, p) {
            EtcFileStatus::Managed
        } else {
            status_at(g, q)
        });
        if q.len() == 0 {
            assert(status_at(r, q) == r.status);
            assert(r.status == g.status);
            assert(q != p);
            assert(goal);
        } else {
            let q1 = q.drop_first();
            if q[0] == name {
                lemma_register_status(child, p1, q1);
                assert(status_at(r, q) == status_at(register_spec(child, p1), q1));
                if q1 == p1 {
                    assert(q.len() == p.len());
                    assert forall|i: int| 0 <= i < q.len() implies q[i] == p[i] by {
                        if i > 0 {
                            assert(q1[i - 1] == p1[i - 1]);
                        }
                    }
                    assert(q =~= p);
                } else {
                    assert(q != p);
                }
                if g.children.contains_key(name) {
                    assert(status_at(g, q) == status_at(child, q1));
                    assert(exists_at(g, p) == exists_at(child, p1));
                    assert(goal);
                } else {
                    assert(status_at(g, q) == EtcFileStatus::Unmanaged);
                    assert(!exists_at(g, p));
                    if p1.len() == 0 {
                        assert(status_at(child, q1) == if q1.len() == 0 {
                            EtcFileStatus::Managed
                        } else {
                            EtcFileStatus::Unmanaged
                        });
                        if q1 == p1 {
                            assert(q == p);
                            assert(goal);
                        } else {
                            assert(q1.len() > 0) by {
                                if q1.len() == 0 {
                                    assert(q1 =~= p1);
                                }
                            }
                            assert(goal);
                        }
                    } else {
                        assert(!exists_at(child, p1));
                        if q1 != p1 {
                            assert(status_at(child, q1) == if q1.len() == 0 {
                                EtcFileStatus::Unmanaged
                            } else {
                                EtcFileStatus::Unmanaged
                            });
                            assert(goal);
                        } else {
                            assert(goal);
                        }
                    }
                }
            } else {
                assert(q != p);
                assert(r.children.contains_key(q[0]) == g.children.contains_key(q[0]));
                if g.children.contains_key(q[0]) {
                    assert(r.children[q[0]] == g.children[q[0]]);
                }
                assert(goal);
            }
        }
    }
}

/// A tree built by registering each path of `ps` in turn.
pub open spec fn register_all(g: TreeModel, ps: Seq<Seq<Seq<char>>>) -> TreeModel
    decreases ps.len(),
{
    if ps.len() == 0 {
        g
    } else {
        register_all(register_spec(g, ps[0]), ps.drop_first())
    }
}

/// Registering one more path at the end registers it into the tree built
/// from the paths before it.
pub proof fn lemma_register_all_snoc(g: TreeModel, ps: Seq<Seq<Seq<char>>>, q: Seq<Seq<char>>)
    ensures
        register_all(g, ps.push(q)) == register_spec(register_all(g, ps), q),
    decreases ps.len(),
{
    if ps.len() == 0 {
        assert(ps.push(q)[0] == q);
        assert(ps.push(q).drop_first() =~= Seq::<Seq<Seq<char>>>::empty());
        assert(register_all(g, ps.push(q)) == register_all(
            register_spec(g, q),
            Seq::<Seq<Seq<char>>>::empty(),
        ));
    } else {
        assert(ps.push(q)[0] == ps[0]);
        assert(ps.push(q).drop_first() =~= ps.drop_first().push(q));
        lemma_register_all_snoc(register_spec(g, ps[0]), ps.drop_first(), q);
    }
}

/// Registering any number of other paths leaves the status of `p` alone.
pub proof fn lemma_register_all_others(g: TreeModel, ps: Seq<Seq<Seq<char>>>, p: Seq<Seq<char>>)
    requires
        !ps.contains(p),
    ensures
        status_at(register_all(g, ps), p) == status_at(g, p),
    decreases ps.len(),
{
    if ps.len() == 0 {
    } else {
        assert(ps[0] != p);
        assert forall|x: Seq<Seq<char>>| ps.drop_first().contains(x) implies ps.contains(x) by {
            let i = choose|i: int| 0 <= i < ps.drop_first().len() && ps.drop_first()[i] == x;
            assert(ps[i + 1] == x);
        }
        lemma_register_all_others(register_spec(g, ps[0]), ps.drop_first(), p);
        lemma_register_status(g, ps[0], p);
    }
}

/// A path never registered is never managed: whatever paths were registered
/// into the empty tree, as long as `p` is not among them, `p` stays
/// unmanaged.
pub proof fn lemma_never_registered_unmanaged(ps: Seq<Seq<Seq<char>>>, p: Seq<Seq<char>>)
    requires
        !ps.contains(p),
    ensures
        status_at(register_all(root_model(), ps), p) == EtcFileStatus::Unmanaged,
{
    lemma_register_all_others(root_model(), ps, p);
}

/// Registering a path twice gives the very tree that registering it once
/// gives: the status and the children at every level are identical.
pub proof fn lemma_register_idempotent(g: TreeModel, p: Seq<Seq<char>>)
    ensures
        register_spec(register_spec(g, p), p) == register_spec(g, p),
    decreases p.len(),
{
    if p.len() == 0 {
    } else {
        let name = p[0];
        let p1 = p.drop_first();
        let child = if g.children.contains_key(name) {
            g.children[name]
        } else {
            TreeModel {
                status: if p.len() == 1 {
                    EtcFileStatus::Managed
                } else {
                    EtcFileStatus::Unmanaged
                },
                path: g.path.push(name),
                children: Map::empty(),
            }
        };
        let r = register_spec(g, p);
        assert(r.children.contains_key(name));
        assert(r.children[name] == register_spec(child, p1));
        lemma_register_idempotent(child, p1);
        assert(register_spec(r, p).children =~= r.children);
        assert(register_spec(r, p) =~= r);
    }
}

/// Registering a fresh path marks exactly its terminal node managed.
pub proof fn lemma_register_marks_managed(g: TreeModel, p: Seq<Seq<char>>)
    requires
        p.len() > 0,
        !exists_at(g, p),
    ensures
        status_at(register_spec(g, p), p) == EtcFileStatus::Managed,
{
    lemma_register_status(g, p, p);
}

/// Registering a fresh path leaves its intermediate nodes unmanaged: a
/// proper prefix of the registered path is managed afterwards only if it
/// already was before.
pub proof fn lemma_register_intermediates(g: TreeModel, p: Seq<Seq<char>>, q: Seq<Seq<char>>)
    requires
        p.len() > 0,
        !exists_at(g, p),
        q.len() < p.len(),
        q == p.take(q.len() as int),
        !(status_at(g, q) is Managed),
    ensures
        !(status_at(register_spec(g, p), q) is Managed),
        status_at(register_spec(g, p), p) == EtcFileStatus::Managed,
{
    assert(q != p);
    lemma_register_status(g, p, q);
    lemma_register_status(g, p, p);
}

/// When the deletion action is granted for every path of a well-formed
/// subtree, deactivation removes the whole subtree.
pub proof fn lemma_deactivate_all_granted(g: TreeModel, d: spec_fn(Seq<Seq<char>>) -> bool)
    requires
        wf(g),
        forall|q: Seq<Seq<char>>| g.path.is_prefix_of(q) ==> #[trigger] d(q),
    ensures
        deactivate_spec(g, d) is None,
    decreases g,
{
    assert forall|n: Seq<char>| g.children.contains_key(n) implies deactivate_spec(
        #[trigger] g.children[n],
        d,
    ) is None by {
        let c = g.children[n];
        assert(c.path == g.path.push(n));
        assert forall|q: Seq<Seq<char>>| c.path.is_prefix_of(q) implies #[trigger] d(q) by {
            assert(g.path =~= c.path.subrange(0, g.path.len() as int));
            assert(g.path.is_prefix_of(q));
        }
        lemma_deactivate_all_granted(c, d);
    }
    assert(g.path.is_prefix_of(g.path));
    assert(d(g.path));
}

/// Stepping both paths past a shared first component keeps the prefix
/// relation.
proof fn lemma_prefix_step(p: Seq<Seq<char>>, q: Seq<Seq<char>>)
    requires
        p.len() > 0,
        q.len() > 0,
        p[0] == q[0],
    ensures
        p.is_prefix_of(q) <==> p.drop_first().is_prefix_of(q.drop_first()),
{
    let p1 = p.drop_first();
    let q1 = q.drop_first();
    if p.is_prefix_of(q) {
        assert forall|i: int| 0 <= i < p1.len() implies p1[i] == q1.subrange(
            0,
            p1.len() as int,
        )[i] by {
            assert(p[i + 1] == q.subrange(0, p.len() as int)[i + 1]);
        }
        assert(p1 =~= q1.subrange(0, p1.len() as int));
    }
    if p1.is_prefix_of(q1) {
        assert forall|i: int| 0 <= i < p.len() implies p[i] == q.subrange(
            0,
            p.len() as int,
        )[i] by {
            if i > 0 {
                assert(p1[i - 1] == q1.subrange(0, p1.len() as int)[i - 1]);
            }
        }
        assert(p =~= q.subrange(0, p.len() as int));
    }
}

/// Deactivating the subtree at `p` with every removal granted leaves every
/// path at or below `p` unmanaged, while every other path keeps its
/// status: ancestors of `p` with other descendants are untouched, and what
/// is left standing along `p` is unmanaged scaffolding only.
pub proof fn lemma_deactivate_at_all_granted(
    g: TreeModel,
    p: Seq<Seq<char>>,
    q: Seq<Seq<char>>,
    d: spec_fn(Seq<Seq<char>>) -> bool,
)
    requires
        wf(g),
        p.len() > 0,
        forall|x: Seq<Seq<char>>| #[trigger] d(x),
    ensures
        status_at(deactivate_at_spec(g, p, d), q) == if p.is_prefix_of(q) {
            EtcFileStatus::Unmanaged
        } else {
            status_at(g, q)
        },
    decreases p.len(),
{
    let name = p[0];
    let r = deactivate_at_spec(g, p, d);
    if !g.children.contains_key(name) {
        if p.is_prefix_of(q) {
            assert(q[0] == q.subrange(0, p.len() as int)[0]);
            assert(q[0] == name);
            assert(status_at(g, q) == EtcFileStatus::Unmanaged);
        }
    } else {
        let c = g.children[name];
        assert(wf(c));
        if q.len() == 0 {
            assert(!p.is_prefix_of(q));
        } else if q[0] == name {
            let q1 = q.drop_first();
            lemma_prefix_step(p, q);
            if p.len() > 1 {
                lemma_deactivate_at_all_granted(c, p.drop_first(), q1, d);
                assert(status_at(r, q) == status_at(
                    deactivate_at_spec(c, p.drop_first(), d),
                    q1,
                ));
            } else {
                assert forall|x: Seq<Seq<char>>| c.path.is_prefix_of(x) implies #[trigger] d(
                    x,
                ) by {}
                lemma_deactivate_all_granted(c, d);
                assert(!r.children.contains_key(name));
                assert(status_at(r, q) == EtcFileStatus::Unmanaged);
                assert(p =~= q.subrange(0, p.len() as int));
                assert(p.is_prefix_of(q));
            }
        } else {
            if p.is_prefix_of(q) {
                assert(q.subrange(0, p.len() as int)[0] == p[0]);
            }
            assert(!p.is_prefix_of(q));
            assert(r.children.contains_key(q[0]) == g.children.contains_key(q[0]));
            if g.children.contains_key(q[0]) {
                assert(r.children[q[0]] == g.children[q[0]]);
            }
        }
    }
}

/// When the deletion action is granted everywhere except at one managed
/// path (given here by its components `r0` below the root of `g`),
/// deactivation keeps exactly the chain of nodes leading to that path,
/// each with the status it had, and removes everything else.
pub proof fn lemma_deactivate_blocked(
    g: TreeModel,
    r0: Seq<Seq<char>>,
    q: Seq<Seq<char>>,
    d: spec_fn(Seq<Seq<char>>) -> bool,
)
    requires
        wf(g),
        status_at(g, r0) is Managed,
        forall|x: Seq<Seq<char>>| #[trigger] d(x) == (x != g.path + r0),
    ensures
        deactivate_spec(g, d) is Some,
        status_at(deactivate_spec(g, d)->Some_0, q) == if q.is_prefix_of(r0) {
            status_at(g, q)
        } else {
            EtcFileStatus::Unmanaged
        },
    decreases r0.len(),
{
    if r0.len() == 0 {
        assert forall|n: Seq<char>| g.children.contains_key(n) implies deactivate_spec(
            #[trigger] g.children[n],
            d,
        ) is None by {
            let c = g.children[n];
            assert(c.path == g.path.push(n));
            assert forall|x: Seq<Seq<char>>| c.path.is_prefix_of(x) implies #[trigger] d(x) by {
                assert((g.path + r0).len() == g.path.len());
                assert(x.len() > g.path.len());
            }
            lemma_deactivate_all_granted(c, d);
        }
        assert(g.path + r0 =~= g.path);
        assert(!d(g.path));
        assert(deact_kids(g, d) =~= Map::<Seq<char>, TreeModel>::empty());
        assert(deactivate_spec(g, d) is Some);
        let t = deactivate_spec(g, d)->Some_0;
        if q.len() == 0 {
        } else {
            assert(!q.is_prefix_of(r0));
            assert(!t.children.contains_key(q[0]));
        }
    } else {
        let name = r0[0];
        let r1 = r0.drop_first();
        assert(g.children.contains_key(name));
        let c = g.children[name];
        assert(wf(c));
        assert(c.path == g.path.push(name));
        assert(status_at(c, r1) is Managed);
        assert forall|i: int| 0 <= i < (c.path + r1).len() implies (c.path + r1)[i] == (g.path
            + r0)[i] by {
            if i < g.path.len() {
            } else if i == g.path.len() {
                assert((c.path + r1)[i] == c.path[i]);
                assert((g.path + r0)[i] == r0[0]);
            } else {
                assert((c.path + r1)[i] == r1[i - g.path.len() - 1]);
                assert((g.path + r0)[i] == r0[i - g.path.len()]);
            }
        }
        assert(c.path + r1 =~= g.path + r0);
        assert forall|x: Seq<Seq<char>>| #[trigger] d(x) == (x != c.path + r1) by {}
        assert forall|n: Seq<char>|
            g.children.contains_key(n) && n != name implies deactivate_spec(
            #[trigger] g.children[n],
            d,
        ) is None by {
            let cn = g.children[n];
            assert(cn.path == g.path.push(n));
            assert forall|x: Seq<Seq<char>>| cn.path.is_prefix_of(x) implies #[trigger] d(x) by {
                if x == g.path + r0 {
                    assert(x[g.path.len() as int] == r0[0]);
                    assert(cn.path =~= x.subrange(0, cn.path.len() as int));
                    assert(x[g.path.len() as int] == cn.path[g.path.len() as int]);
                    assert(cn.path[g.path.len() as int] == n);
                }
            }
            lemma_deactivate_all_granted(cn, d);
        }
        lemma_deactivate_blocked(c, r1, r1, d);
        let ct = deactivate_spec(c, d)->Some_0;
        assert(deact_kids(g, d) =~= Map::<Seq<char>, TreeModel>::empty().insert(name, ct));
        assert(deact_kids(g, d).contains_key(name));
        assert(deactivate_spec(g, d) is Some);
        let t = deactivate_spec(g, d)->Some_0;
        assert(t.children == deact_kids(g, d));
        if q.len() == 0 {
            assert(q.is_prefix_of(r0));
        } else if q[0] == name {
            let q1 = q.drop_first();
            lemma_deactivate_blocked(c, r1, q1, d);
            lemma_prefix_step(q, r0);
            assert(status_at(t, q) == status_at(ct, q1));
            if q1.is_prefix_of(r1) {
                assert(status_at(c, q1) == status_at(g, q));
            }
        } else {
            if q.is_prefix_of(r0) {
                assert(q.subrange(0, q.len() as int) =~= q);
                assert(q[0] == r0[0]);
            }
            assert(!q.is_prefix_of(r0));
            assert(!t.children.contains_key(q[0]));
        }
    }
}

/// The empty root tree is well-formed.
pub proof fn lemma_root_wf()
    ensures
        wf(root_model()),
{
    assert(Map::<Seq<char>, TreeModel>::empty().dom().finite());
}

/// Registration keeps the tree well-formed, and never removes a child.
pub proof fn lemma_register_wf(g: TreeModel, p: Seq<Seq<char>>)
    requires
        wf(g),
    ensures
        wf(register_spec(g, p)),
        register_spec(g, p).path == g.path,
        p.len() > 0 ==> !no_children(register_spec(g, p)),
    decreases p.len(),
{
    if p.len() == 0 {
    } else {
        let name = p[0];
        let p1 = p.drop_first();
        let child = if g.children.contains_key(name) {
            g.children[name]
        } else {
            TreeModel {
                status: if p.len() == 1 {
                    EtcFileStatus::Managed
                } else {
                    EtcFileStatus::Unmanaged
                },
                path: g.path.push(name),
                children: Map::empty(),
            }
        };
        if g.children.contains_key(name) {
            lemma_register_wf(child, p1);
        } else {
            assert(Map::<Seq<char>, TreeModel>::empty().dom().finite());
            assert(wf(child));
            lemma_register_wf(child, p1);
        }
        let rc = register_spec(child, p1);
        assert(nonvacant(rc)) by {
            if p1.len() == 0 {
                if g.children.contains_key(name) {
                    assert(nonvacant(child));
                }
            }
        }
        let r = register_spec(g, p);
        assert forall|n: Seq<char>| #[trigger] r.children.contains_key(n) implies {
            &&& r.children[n].path == r.path.push(n)
            &&& nonvacant(r.children[n])
            &&& wf(r.children[n])
        } by {
            if n != name {
                assert(g.children.contains_key(n));
            }
        }
        assert(r.children.contains_key(name));
    }
}

/// Whatever survives deactivation is well-formed, keeps the node's own
/// status and path, and is never a dangling unmanaged leaf.
pub proof fn lemma_deactivate_wf(g: TreeModel, d: spec_fn(Seq<Seq<char>>) -> bool)
    requires
        wf(g),
    ensures
        match deactivate_spec(g, d) {
            Some(t) => wf(t) && nonvacant(t) && t.path == g.path && t.status == g.status,
            None => true,
        },
    decreases g,
{
    let kids = deact_kids(g, d);
    assert forall|n: Seq<char>| #[trigger] kids.contains_key(n) implies {
        &&& wf(kids[n])
        &&& nonvacant(kids[n])
        &&& kids[n].path == g.path.push(n)
    } by {
        lemma_deactivate_wf(g.children[n], d);
    }
    assert(kids.dom() =~= g.children.dom().intersect(
        Set::new(|n: Seq<char>| kids.contains_key(n)),
    ));
    assert(kids.dom().finite());
    match deactivate_spec(g, d) {
        Some(t) => {
            assert(t.children == kids);
            if exists|n: Seq<char>| kids.contains_key(n) {
                let n0 = choose|n: Seq<char>| kids.contains_key(n);
                assert(!no_children(t));
            }
        },
        None => {},
    }
}

/// Reconciliation keeps the tree well-formed: the result carries the new
/// generation's status and path, and is never emptier than the new
/// generation.
pub proof fn lemma_update_wf(g: TreeModel, o: TreeModel, d: spec_fn(Seq<Seq<char>>) -> bool)
    requires
        wf(g),
        wf(o),
        g.path == o.path,
    ensures
        wf(update_spec(g, o, d)),
        update_spec(g, o, d).path == g.path,
        update_spec(g, o, d).status == g.status,
        nonvacant(g) ==> nonvacant(update_spec(g, o, d)),
    decreases o, g,
{
    let r = update_spec(g, o, d);
    let kids = update_kids(g, o, d);
    assert(r.children == kids);
    assert forall|n: Seq<char>| #[trigger] kids.contains_key(n) implies {
        &&& wf(kids[n])
        &&& nonvacant(kids[n])
        &&& kids[n].path == g.path.push(n)
    } by {
        if g.children.contains_key(n) && o.children.contains_key(n) {
            lemma_update_wf(g.children[n], o.children[n], d);
            let u = update_spec(g.children[n], o.children[n], d);
            assert(kids[n] == merge_node(u, o.children[n].status));
            assert(nonvacant(merge_node(u, o.children[n].status))) by {
                if no_children(u) {
                    assert(nonvacant(g.children[n]));
                }
            }
        } else if o.children.contains_key(n) {
            lemma_deactivate_wf(o.children[n], d);
            assert(kids[n] == deactivate_spec(o.children[n], d)->Some_0);
        } else {
            assert(g.children.contains_key(n));
            assert(kids[n] == g.children[n]);
        }
    }
    assert(kids.dom() =~= (g.children.dom().union(o.children.dom())).intersect(
        Set::new(|n: Seq<char>| kids.contains_key(n)),
    ));
    assert(kids.dom().finite());
    assert forall|n: Seq<char>| #[trigger] g.children.contains_key(n) implies kids.contains_key(
        n,
    ) by {
        if o.children.contains_key(n) {
            lemma_update_wf(g.children[n], o.children[n], d);
        }
    }
    if nonvacant(g) && !no_children(g) {
        let n0 = choose|n: Seq<char>| g.children.contains_key(n);
        assert(kids.contains_key(n0));
    }
}

} // verus!

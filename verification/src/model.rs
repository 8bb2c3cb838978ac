//! The mathematical model of the tree and the specifications of every
//! operation on it.

use vstd::prelude::*;
use crate::status::EtcFileStatus;

verus! {

broadcast use vstd::map::group_map_axioms;

/// A tree node as a mathematical value: its status, the absolute path it
/// denotes (as the sequence of its components), and its children keyed by
/// the child's last path component.
#[verifier::ext_equal]
pub struct TreeModel {
    pub status: EtcFileStatus,
    pub path: Seq<Seq<char>>,
    pub children: Map<Seq<char>, TreeModel>,
}

/// The sequence of components that a component vector denotes.
pub open spec fn path_view(p: Vec<String>) -> Seq<Seq<char>> {
    p@.map_values(|c: String| c@)
}

/// True when the node has no children at all.
pub open spec fn no_children(g: TreeModel) -> bool {
    forall|n: Seq<char>| !g.children.contains_key(n)
}

/// A childless node may only be kept when it is managed: an unmanaged node
/// without children stands for nothing and must be pruned instead.
pub open spec fn nonvacant(g: TreeModel) -> bool {
    no_children(g) ==> g.status is Managed
}

/// Well-formedness: child paths extend the parent's path by the child's
/// name, and below the root no unmanaged childless node occurs.
pub open spec fn wf(g: TreeModel) -> bool
    decreases g,
{
    &&& g.children.dom().finite()
    &&& forall|n: Seq<char>| #[trigger] g.children.contains_key(n) ==> {
        &&& g.children[n].path == g.path.push(n)
        &&& nonvacant(g.children[n])
        &&& wf(g.children[n])
    }
}

/// The model of the canonical empty tree: the unmanaged filesystem root.
pub open spec fn root_model() -> TreeModel {
    TreeModel {
        status: EtcFileStatus::Unmanaged,
        path: Seq::empty(),
        children: Map::empty(),
    }
}

/// The status recorded for a path, read by descending the components;
/// unknown paths are unmanaged.
pub open spec fn status_at(g: TreeModel, p: Seq<Seq<char>>) -> EtcFileStatus
    decreases p.len(),
{
    if p.len() == 0 {
        g.status
    } else if g.children.contains_key(p[0]) {
        status_at(g.children[p[0]], p.drop_first())
    } else {
        EtcFileStatus::Unmanaged
    }
}

/// Whether a node for this path is present in the tree.
pub open spec fn exists_at(g: TreeModel, p: Seq<Seq<char>>) -> bool
    decreases p.len(),
{
    if p.len() == 0 {
        true
    } else if g.children.contains_key(p[0]) {
        exists_at(g.children[p[0]], p.drop_first())
    } else {
        false
    }
}

/// Registration: grow the tree along `p`, creating missing nodes; a node
/// created for the terminal component starts managed, other created nodes
/// start unmanaged, and every node already present keeps its status.
pub open spec fn register_spec(g: TreeModel, p: Seq<Seq<char>>) -> TreeModel
    decreases p.len(),
{
    if p.len() == 0 {
        g
    } else {
        let name = p[0];
        let child = if g.children.contains_key(name) {
            g.children[name]
        } else {
            TreeModel {
                status: if p.len() == 1 {
                    EtcFileStatus::Managed
                } else {
                    EtcFileStatus::Unmanaged
                },
                path: g.path.push(name),
                children: Map::empty(),
            }
        };
        TreeModel {
            status: g.status,
            path: g.path,
            children: g.children.insert(name, register_spec(child, p.drop_first())),
        }
    }
}

/// Deactivation under a decision `d` that says, per path, whether removing
/// the corresponding filesystem entry succeeds. Children are pruned first;
/// a node that still has children stays; a childless unmanaged node is
/// silently dropped; a childless managed node goes exactly when `d` grants
/// the removal of its path.
pub open spec fn deactivate_spec(g: TreeModel, d: spec_fn(Seq<Seq<char>>) -> bool) -> Option<
    TreeModel,
>
    decreases g, 1int,
{
    let kids = deact_kids(g, d);
    if exists|n: Seq<char>| kids.contains_key(n) {
        Some(TreeModel { status: g.status, path: g.path, children: kids })
    } else if g.status is Managed && !d(g.path) {
        Some(TreeModel { status: g.status, path: g.path, children: kids })
    } else {
        None
    }
}

/// `t` is a pruning of `g`: every node of `t` already stood in `g`, at the
/// same place and with the same status. This holds of a deactivated tree
/// whatever the deletion action returned.
pub open spec fn pruned_from(t: TreeModel, g: TreeModel) -> bool
    decreases g,
{
    &&& t.status == g.status
    &&& t.path == g.path
    &&& forall|n: Seq<char>| #[trigger] t.children.contains_key(n) ==> g.children.contains_key(n)
        && pruned_from(t.children[n], g.children[n])
}

/// A pruning holds exactly when the node is unchanged and each remaining
/// child is itself a pruning of the child it came from.
pub proof fn lemma_pruned_from_parts(t: TreeModel, g: TreeModel)
    requires
        t.status == g.status,
        t.path == g.path,
        forall|n: Seq<char>| #[trigger] t.children.contains_key(n) ==> g.children.contains_key(n)
            && pruned_from(t.children[n], g.children[n]),
    ensures
        pruned_from(t, g),
{
}

/// The children of `g` that survive deactivation under `d`.
pub open spec fn deact_kids(g: TreeModel, d: spec_fn(Seq<Seq<char>>) -> bool) -> Map<
    Seq<char>,
    TreeModel,
>
    decreases g, 0int,
{
    Map::new(
        |n: Seq<char>| g.children.contains_key(n) && deactivate_spec(g.children[n], d) is Some,
        |n: Seq<char>|
            if g.children.contains_key(n) {
                deactivate_spec(g.children[n], d)->Some_0
            } else {
                root_model()
            },
    )
}

/// How the surviving children change when one more child is considered.
pub proof fn lemma_deact_kids_insert(
    g: TreeModel,
    n: Seq<char>,
    t: TreeModel,
    d: spec_fn(Seq<Seq<char>>) -> bool,
)
    requires
        !g.children.contains_key(n),
    ensures
        deact_kids(TreeModel { children: g.children.insert(n, t), ..g }, d) == match deactivate_spec(
            t,
            d,
        ) {
            Some(u) => deact_kids(g, d).insert(n, u),
            None => deact_kids(g, d),
        },
{
    let gi = TreeModel { children: g.children.insert(n, t), ..g };
    match deactivate_spec(t, d) {
        Some(u) => {
            assert(deact_kids(gi, d) =~= deact_kids(g, d).insert(n, u));
        },
        None => {
            assert(deact_kids(gi, d) =~= deact_kids(g, d));
        },
    }
}

/// A node without children has no surviving children.
pub proof fn lemma_deact_kids_empty(g: TreeModel, d: spec_fn(Seq<Seq<char>>) -> bool)
    requires
        forall|n: Seq<char>| !g.children.contains_key(n),
    ensures
        deact_kids(g, d) == Map::<Seq<char>, TreeModel>::empty(),
{
    assert(deact_kids(g, d) =~= Map::<Seq<char>, TreeModel>::empty());
}

/// Reconciliation of a new generation `g` against a previous one `o`:
/// children only `o` has are deactivated and kept only while their removal
/// is blocked; children both have are reconciled recursively, with the
/// statuses of the two generations merged; children only `g` has stay.
pub open spec fn update_spec(
    g: TreeModel,
    o: TreeModel,
    d: spec_fn(Seq<Seq<char>>) -> bool,
) -> TreeModel
    decreases o, g, 1int,
{
    TreeModel { status: g.status, path: g.path, children: update_kids(g, o, d) }
}

/// A reconciled node with the previous generation's status merged in.
pub open spec fn merge_node(u: TreeModel, s: EtcFileStatus) -> TreeModel {
    TreeModel { status: u.status.merge_spec(s), path: u.path, children: u.children }
}

/// The children of a reconciled node: the new generation's children, with
/// blocked leftovers of the previous generation inserted and the children
/// common to both generations reconciled recursively.
pub open spec fn update_kids(
    g: TreeModel,
    o: TreeModel,
    d: spec_fn(Seq<Seq<char>>) -> bool,
) -> Map<Seq<char>, TreeModel>
    decreases o, g, 0int,
{
    let deactivated = Map::new(
        |n: Seq<char>|
            o.children.contains_key(n) && !g.children.contains_key(n) && deactivate_spec(
                o.children[n],
                d,
            ) is Some,
        |n: Seq<char>|
            if o.children.contains_key(n) {
                deactivate_spec(o.children[n], d)->Some_0
            } else {
                root_model()
            },
    );
    let merged = Map::new(
        |n: Seq<char>| g.children.contains_key(n) && o.children.contains_key(n),
        |n: Seq<char>|
            if g.children.contains_key(n) && o.children.contains_key(n) {
                merge_node(update_spec(g.children[n], o.children[n], d), o.children[n].status)
            } else {
                root_model()
            },
    );
    g.children.union_prefer_right(deactivated).union_prefer_right(merged)
}

/// How the reconciled children change when one more child of the previous
/// generation is considered.
pub proof fn lemma_update_kids_insert(
    g: TreeModel,
    o: TreeModel,
    n: Seq<char>,
    t: TreeModel,
    d: spec_fn(Seq<Seq<char>>) -> bool,
)
    requires
        !o.children.contains_key(n),
    ensures
        update_kids(g, TreeModel { children: o.children.insert(n, t), ..o }, d)
            == if g.children.contains_key(n) {
            update_kids(g, o, d).insert(
                n,
                merge_node(update_spec(g.children[n], t, d), t.status),
            )
        } else {
            match deactivate_spec(t, d) {
                Some(u) => update_kids(g, o, d).insert(n, u),
                None => update_kids(g, o, d),
            }
        },
{
    let oi = TreeModel { children: o.children.insert(n, t), ..o };
    if g.children.contains_key(n) {
        assert(update_kids(g, oi, d) =~= update_kids(g, o, d).insert(
            n,
            merge_node(update_spec(g.children[n], t, d), t.status),
        ));
    } else {
        match deactivate_spec(t, d) {
            Some(u) => {
                assert(update_kids(g, oi, d) =~= update_kids(g, o, d).insert(n, u));
            },
            None => {
                assert(update_kids(g, oi, d) =~= update_kids(g, o, d));
            },
        }
    }
}

/// With no previous-generation children considered, the new generation's
/// children stand unchanged.
pub proof fn lemma_update_kids_empty(
    g: TreeModel,
    o: TreeModel,
    d: spec_fn(Seq<Seq<char>>) -> bool,
)
    requires
        forall|n: Seq<char>| !o.children.contains_key(n),
    ensures
        update_kids(g, o, d) == g.children,
{
    assert(update_kids(g, o, d) =~= g.children);
}

/// Deactivation of the one subtree that sits at `p`: the tree is unchanged
/// but for the node at `p`, which is deactivated under `d` and dropped from
/// its parent when nothing of it survives.
pub open spec fn deactivate_at_spec(
    g: TreeModel,
    p: Seq<Seq<char>>,
    d: spec_fn(Seq<Seq<char>>) -> bool,
) -> TreeModel
    decreases p.len(),
{
    if p.len() == 0 {
        g
    } else {
        let name = p[0];
        if !g.children.contains_key(name) {
            g
        } else if p.len() > 1 {
            TreeModel {
                status: g.status,
                path: g.path,
                children: g.children.insert(
                    name,
                    deactivate_at_spec(g.children[name], p.drop_first(), d),
                ),
            }
        } else {
            match deactivate_spec(g.children[name], d) {
                Some(t) => TreeModel {
                    status: g.status,
                    path: g.path,
                    children: g.children.insert(name, t),
                },
                None => TreeModel {
                    status: g.status,
                    path: g.path,
                    children: g.children.remove(name),
                },
            }
        }
    }
}

} // verus!

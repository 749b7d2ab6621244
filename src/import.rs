//! Building a prefab from an imported node tree. The importer reads the
//! model file and uploads each mesh once; the tree of nodes, each naming one
//! of those meshes by index, becomes a scene under a fresh root entity.
use vstd::prelude::*;
use crate::components::{is_identity_trs, MeshComponent, TransformComponent};
use crate::graft::{parents_precede, Prefab};
use crate::key::EntityKey;
use crate::map::{extends, lemma_extends_index, lemma_extends_refl, lemma_extends_trans};
use crate::math::{identity_cols, Mat4, Quat, Vec3};
use crate::scene::{Scene, MAX_ENTITIES};
use crate::store::lookup;
use crate::transform::MAX_PARENT_DEPTH;

verus! {

/// One node of an imported model.
#[derive(Debug)]
pub struct ImportNode {
    pub translation: Vec3,
    pub rotation: Quat,
    pub scale: Vec3,
    /// Index of the node's mesh among the uploaded meshes.
    pub mesh: Option<usize>,
    pub children: Vec<ImportNode>,
}

/// Why an imported node tree could not become a prefab.
#[derive(Clone, Copy, Debug, PartialEq, Eq)]
pub enum ImportError {
    /// A node names a mesh index that was not uploaded.
    UnknownMesh,
    /// The node tree is nested deeper than `MAX_PARENT_DEPTH - 1`.
    TooDeep,
    /// The prefab would exceed `MAX_ENTITIES`.
    TooManyEntities,
}

/// Every node, down to `depth` levels, names an uploaded mesh (if any), and
/// no node lies deeper.
pub open spec fn import_valid(node: &ImportNode, mesh_count: nat, depth: nat) -> bool
    decreases depth,
{
    &&& depth > 0
    &&& match node.mesh {
        None => true,
        Some(m) => m < mesh_count,
    }
    &&& forall|j: int| 0 <= j < node.children@.len() ==> import_valid(&#[trigger] node.children@[j], mesh_count, (depth - 1) as nat)
}

/// `t` is the transform that an imported node gives its entity under `parent`.
pub open spec fn import_transform(t: TransformComponent, node: &ImportNode, parent: EntityKey) -> bool {
    &&& t.translation == node.translation
    &&& t.scale == node.scale
    &&& t.rotation == node.rotation
    &&& t.local.cols@ == identity_cols()
    &&& t.world.cols@ == identity_cols()
    &&& t.parent == Some(parent)
}

proof fn lemma_precede_push(before: &Scene, after: &Scene, k: u64)
    requires
        before.wf(),
        parents_precede(before),
        after.keys() == before.keys().push(k),
        after.tf() == before.tf().insert(k, after.tf()[k]),
        !before.tf().contains_key(k),
        after.tf()[k].parent.is_none() || before.tf().contains_key(after.tf()[k].parent.unwrap()@),
    ensures
        parents_precede(after),
{
    let n = before.keys().len() as int;
    assert forall|i: int| 0 <= i < after.keys().len() implies match (#[trigger] after.tf()[after.keys()[i]]).parent {
        None => true,
        Some(p) => exists|j: int| 0 <= j < i && after.keys()[j] == p@,
    } by {
        if i < n {
            assert(after.keys()[i] == before.keys()[i]);
            assert(before.tf().contains_key(before.keys()[i]));
            assert(after.tf()[after.keys()[i]] == before.tf()[before.keys()[i]]);
            match before.tf()[before.keys()[i]].parent {
                Some(p) => {
                    let j = choose|j: int| 0 <= j < i && before.keys()[j] == p@;
                    assert(after.keys()[j] == p@);
                },
                None => {},
            }
        } else {
            match after.tf()[k].parent {
                Some(p) => {
                    assert(before.keys().contains(p@));
                    let j = choose|j: int| 0 <= j < n && before.keys()[j] == p@;
                    assert(after.keys()[j] == p@);
                },
                None => {},
            }
        }
    }
}

/// Entities that `node` and the nodes below it, down to `depth` levels, become.
pub open spec fn tree_size(node: &ImportNode, depth: nat) -> nat
    decreases depth, 0nat,
{
    if depth == 0 {
        0
    } else {
        1 + forest_size(node.children@, (depth - 1) as nat, node.children@.len())
    }
}

/// Entities that the first `n` of `nodes` become, each down to `depth` levels.
pub open spec fn forest_size(nodes: Seq<ImportNode>, depth: nat, n: nat) -> nat
    decreases depth, n + 1,
{
    if n == 0 || n > nodes.len() {
        0
    } else {
        forest_size(nodes, depth, (n - 1) as nat) + tree_size(&nodes[n - 1], depth)
    }
}

proof fn lemma_forest_mono(nodes: Seq<ImportNode>, depth: nat, a: nat, b: nat)
    requires
        a <= b <= nodes.len(),
    ensures
        forest_size(nodes, depth, a) <= forest_size(nodes, depth, b),
    decreases b - a,
{
    if a < b {
        lemma_forest_mono(nodes, depth, a, (b - 1) as nat);
    }
}

/// The entity at position `pos` of `s` and those after it hold `node` and
/// the nodes below it, depth-first: each with the node's transform under its
/// parent's entity, and a copy of the node's mesh.
#[verifier::opaque]
pub open spec fn placed_tree(
    s: &Scene,
    node: &ImportNode,
    pos: nat,
    parent: EntityKey,
    meshes: Seq<MeshComponent>,
    depth: nat,
) -> bool
    decreases depth,
{
    &&& depth > 0
    &&& 0 <= pos < s.keys().len()
    &&& import_transform(s.tf()[s.keys()[pos as int]], node, parent)
    &&& lookup(s.meshes(), s.keys()[pos as int]) == match node.mesh {
        None => None,
        Some(m) => Some(meshes[m as int]@),
    }
    &&& forall|j: int| 0 <= j < node.children@.len() ==> placed_tree(
        s,
        &#[trigger] node.children@[j],
        pos + 1 + forest_size(node.children@, (depth - 1) as nat, j as nat),
        EntityKey { bits: s.keys()[pos as int] },
        meshes,
        (depth - 1) as nat,
    )
}

proof fn lemma_placed_extends(
    a: &Scene,
    b: &Scene,
    node: &ImportNode,
    pos: nat,
    parent: EntityKey,
    meshes: Seq<MeshComponent>,
    depth: nat,
)
    requires
        a.wf(),
        extends(a, b),
        placed_tree(a, node, pos, parent, meshes, depth),
        pos + tree_size(node, depth) <= a.keys().len(),
    ensures
        placed_tree(b, node, pos, parent, meshes, depth),
    decreases depth,
{
    reveal(placed_tree);
    lemma_extends_index(a, b, pos as int);
    assert(a.keys().contains(a.keys()[pos as int]));
    assert(a.tf().contains_key(a.keys()[pos as int]));
    assert(lookup(b.meshes(), b.keys()[pos as int]) == lookup(a.meshes(), a.keys()[pos as int]));
    let kids = node.children@;
    let d1 = (depth - 1) as nat;
    assert forall|j: int| 0 <= j < kids.len() implies placed_tree(
        b, &#[trigger] kids[j], pos + 1 + forest_size(kids, d1, j as nat), EntityKey { bits: b.keys()[pos as int] }, meshes, d1) by {
        lemma_forest_mono(kids, d1, j as nat + 1, kids.len());
        assert(forest_size(kids, d1, j as nat + 1) == forest_size(kids, d1, j as nat) + tree_size(&kids[j], d1));
        lemma_placed_extends(a, b, &kids[j], pos + 1 + forest_size(kids, d1, j as nat),
            EntityKey { bits: a.keys()[pos as int] }, meshes, d1);
    }
}

/// After the `j`-th of `kids` is placed, the earlier ones still are.
proof fn lemma_placed_step(
    pre: &Scene,
    post: &Scene,
    kids: Seq<ImportNode>,
    base: nat,
    parent: EntityKey,
    meshes: Seq<MeshComponent>,
    d1: nat,
    j: nat,
)
    requires
        pre.wf(),
        extends(pre, post),
        j < kids.len(),
        pre.keys().len() == base + forest_size(kids, d1, j),
        forall|u: int| 0 <= u < j ==> placed_tree(pre, &#[trigger] kids[u], base + forest_size(kids, d1, u as nat), parent, meshes, d1),
        placed_tree(post, &kids[j as int], base + forest_size(kids, d1, j), parent, meshes, d1),
    ensures
        forall|u: int| 0 <= u < j + 1 ==> placed_tree(post, &#[trigger] kids[u], base + forest_size(kids, d1, u as nat), parent, meshes, d1),
{
    assert forall|u: int| 0 <= u < j + 1 implies placed_tree(post, &#[trigger] kids[u], base + forest_size(kids, d1, u as nat), parent, meshes, d1) by {
        if u < j {
            lemma_forest_mono(kids, d1, u as nat + 1, j);
            assert(forest_size(kids, d1, u as nat + 1) == forest_size(kids, d1, u as nat) + tree_size(&kids[u], d1));
            lemma_placed_extends(pre, post, &kids[u], base + forest_size(kids, d1, u as nat), parent, meshes, d1);
        }
    }
}

proof fn lemma_placed_intro(
    s: &Scene,
    node: &ImportNode,
    pos: nat,
    parent: EntityKey,
    meshes: Seq<MeshComponent>,
    depth: nat,
)
    requires
        depth > 0,
        pos < s.keys().len(),
        import_transform(s.tf()[s.keys()[pos as int]], node, parent),
        lookup(s.meshes(), s.keys()[pos as int]) == match node.mesh {
            None => None,
            Some(m) => Some(meshes[m as int]@),
        },
        forall|j: int| 0 <= j < node.children@.len() ==> placed_tree(
            s,
            &#[trigger] node.children@[j],
            pos + 1 + forest_size(node.children@, (depth - 1) as nat, j as nat),
            EntityKey { bits: s.keys()[pos as int] },
            meshes,
            (depth - 1) as nat,
        ),
    ensures
        placed_tree(s, node, pos, parent, meshes, depth),
{
    reveal(placed_tree);
}

/// Adds the entity of `node` under `parent`, with a copy of its mesh, then
/// the nodes below it in depth-first order; returns the node's entity.
#[verifier::rlimit(100)]
fn add_node(scene: &mut Scene, node: &ImportNode, meshes: &Vec<MeshComponent>, parent: EntityKey, depth: usize)
    -> (r: Result<EntityKey, ImportError>)
    requires
        old(scene).wf(),
        parents_precede(old(scene)),
        old(scene).tf().contains_key(parent@),
    ensures
        extends(old(scene), final(scene)),
        parents_precede(final(scene)),
        forall|i: int| old(scene).keys().len() <= i < final(scene).keys().len()
            ==> (#[trigger] final(scene).tf()[final(scene).keys()[i]]).parent.is_some(),
        import_valid(node, meshes@.len(), depth as nat)
            && old(scene).keys().len() + tree_size(node, depth as nat) < MAX_ENTITIES ==> r.is_ok(),
        r.is_ok() ==> import_valid(node, meshes@.len(), depth as nat),
        r.is_err() && import_valid(node, meshes@.len(), depth as nat)
            ==> r == Err::<EntityKey, ImportError>(ImportError::TooManyEntities),
        r.is_ok() ==> {
            let k = r.unwrap();
            let n0 = old(scene).keys().len();
            &&& final(scene).keys().len() == n0 + tree_size(node, depth as nat)
            &&& final(scene).keys()[n0 as int] == k@
            &&& !old(scene).tf().contains_key(k@)
            &&& final(scene).tf().contains_key(k@)
            &&& import_transform(final(scene).tf()[k@], node, parent)
            &&& lookup(final(scene).meshes(), k@) == match node.mesh {
                None => None,
                Some(m) => Some(meshes@[m as int]@),
            }
            &&& forall|j: int| 0 <= j < node.children@.len() ==> (#[trigger] final(scene).tf()[final(scene).keys()[
                (n0 + 1 + forest_size(node.children@, (depth - 1) as nat, j as nat)) as int]]).parent == Some(k)
            &&& placed_tree(final(scene), node, n0, parent, meshes@, depth as nat)
        },
    decreases depth,
{
    proof {
        lemma_extends_refl(scene);
    }
    if depth == 0 {
        return Err(ImportError::TooDeep);
    }
    match node.mesh {
        Some(m) => {
            if m >= meshes.len() {
                return Err(ImportError::UnknownMesh);
            }
        },
        None => {},
    }
    let ghost d1 = (depth - 1) as nat;
    let ghost kids = node.children@;
    proof {
        lemma_forest_mono(kids, d1, 0, kids.len());
    }
    if scene.len() >= MAX_ENTITIES {
        return Err(ImportError::TooManyEntities);
    }
    let ghost before = *scene;
    let ghost n0 = before.keys().len();
    let transform = TransformComponent {
        translation: node.translation,
        scale: node.scale,
        rotation: node.rotation,
        local: Mat4::identity(),
        world: Mat4::identity(),
        parent: Some(parent),
    };
    let k = scene.create_entity(transform);
    proof {
        lemma_precede_push(&before, scene, k@);
        assert(scene.keys().subrange(0, before.keys().len() as int) =~= before.keys());
        assert(scene.keys().contains(k@)) by {
            assert(scene.keys()[before.keys().len() as int] == k@);
        }
    }
    let ghost created = *scene;
    match node.mesh {
        Some(m) => {
            scene.insert_mesh(k, meshes[m].clone());
        },
        None => {},
    }
    let ghost placed = *scene;
    proof {
        assert(extends(&before, &placed));
        assert(parents_precede(&placed)) by {
            assert(placed.keys() == created.keys() && placed.tf() == created.tf());
        }
        lemma_extends_refl(&placed);
        assert(placed.keys()[n0 as int] == k@);
        assert(forall|i: int| n0 <= i < placed.keys().len() ==> placed.keys()[i] == k@);
    }
    let mut j: usize = 0;
    while j < node.children.len()
        invariant
            extends(&placed, scene),
            extends(&before, &placed),
            before == *old(scene),
            before.wf(),
            placed.wf(),
            n0 == before.keys().len(),
            d1 == depth - 1,
            kids == node.children@,
            parents_precede(scene),
            placed.tf().contains_key(k@),
            placed.keys().len() == n0 + 1,
            placed.keys()[n0 as int] == k@,
            !before.tf().contains_key(k@),
            import_transform(placed.tf()[k@], node, parent),
            lookup(placed.meshes(), k@) == match node.mesh {
                None => None,
                Some(m) => Some(meshes@[m as int]@),
            },
            depth > 0,
            j <= kids.len(),
            forall|u: int| 0 <= u < j ==> import_valid(&#[trigger] kids[u], meshes@.len(), d1),
            scene.keys().len() == n0 + 1 + forest_size(kids, d1, j as nat),
            forall|i: int| n0 <= i < scene.keys().len()
                ==> (#[trigger] scene.tf()[scene.keys()[i]]).parent.is_some(),
            forall|u: int| 0 <= u < j ==> (#[trigger] scene.tf()[scene.keys()[(n0 + 1 + forest_size(kids, d1, u as nat)) as int]]).parent == Some(k),
            k.bits == k@,
            forall|u: int| 0 <= u < j ==> placed_tree(scene, &#[trigger] kids[u], n0 + 1 + forest_size(kids, d1, u as nat), k, meshes@, d1),
            import_valid(node, meshes@.len(), depth as nat) && n0 + tree_size(node, depth as nat) < MAX_ENTITIES
                ==> n0 + 1 + forest_size(kids, d1, kids.len()) < MAX_ENTITIES,
        decreases kids.len() - j,
    {
        let ghost pre = *scene;
        proof {
            lemma_extends_index(&placed, scene, n0 as int);
            lemma_forest_mono(kids, d1, j as nat + 1, kids.len());
            assert(forest_size(kids, d1, j as nat + 1) == forest_size(kids, d1, j as nat) + tree_size(&kids[j as int], d1));
        }
        let res = add_node(scene, &node.children[j], meshes, k, depth - 1);
        proof {
            lemma_extends_trans(&placed, &pre, scene);
            assert forall|i: int| n0 <= i < scene.keys().len()
                implies (#[trigger] scene.tf()[scene.keys()[i]]).parent.is_some() by {
                if i < pre.keys().len() {
                    lemma_extends_index(&pre, scene, i);
                }
            }
        }
        match res {
            Ok(c) => {
                proof {
                    lemma_placed_step(&pre, scene, kids, n0 + 1, k, meshes@, d1, j as nat);
                    assert forall|u: int| 0 <= u < j + 1 implies (#[trigger] scene.tf()[scene.keys()[(n0 + 1 + forest_size(kids, d1, u as nat)) as int]]).parent == Some(k) by {
                        if u < j {
                            lemma_forest_mono(kids, d1, u as nat + 1, j as nat);
                            assert(forest_size(kids, d1, u as nat + 1) == forest_size(kids, d1, u as nat) + tree_size(&kids[u], d1));
                            lemma_extends_index(&pre, scene, (n0 + 1 + forest_size(kids, d1, u as nat)) as int);
                        } else {
                            assert(scene.keys()[pre.keys().len() as int] == c@);
                        }
                    }
                }
            },
            Err(e) => {
                proof {
                    lemma_extends_trans(&before, &placed, scene);
                    if import_valid(node, meshes@.len(), depth as nat) {
                        assert(import_valid(&node.children@[j as int], meshes@.len(), (depth - 1) as nat));
                    }
                }
                return Err(e);
            },
        }
        j += 1;
    }
    proof {
        lemma_extends_trans(&before, &placed, scene);
        assert(import_valid(node, meshes@.len(), depth as nat));
        lemma_extends_index(&placed, scene, n0 as int);
        assert(EntityKey { bits: scene.keys()[n0 as int] } == k);
        lemma_placed_intro(scene, node, n0, parent, meshes@, depth as nat);
    }
    Ok(k)
}

/// Builds a prefab: a root entity at the origin as the first entity, and
/// after it the entities of `roots` and their children, in depth-first
/// order, each parent before its children. Each node that names a mesh gets
/// a copy of it. Succeeds whenever every node names an uploaded mesh, no
/// node is nested deeper than `MAX_PARENT_DEPTH - 1`, and the entities fit.
#[verifier::rlimit(100)]
pub fn build_prefab(roots: &Vec<ImportNode>, meshes: &Vec<MeshComponent>) -> (r: Result<Prefab, ImportError>)
    ensures
        (forall|i: int| 0 <= i < roots@.len()
            ==> import_valid(&#[trigger] roots@[i], meshes@.len(), (MAX_PARENT_DEPTH - 1) as nat))
            && 1 + forest_size(roots@, (MAX_PARENT_DEPTH - 1) as nat, roots@.len()) < MAX_ENTITIES ==> r.is_ok(),
        r.is_ok() ==> {
            let p = r.unwrap();
            let d = (MAX_PARENT_DEPTH - 1) as nat;
            &&& p.scene.wf()
            &&& parents_precede(&p.scene)
            &&& p.scene.keys().len() == 1 + forest_size(roots@, d, roots@.len())
            &&& p.scene.keys()[0] == p.root@
            &&& p.scene.tf().contains_key(p.root@)
            &&& is_identity_trs(p.scene.tf()[p.root@])
            &&& p.scene.tf()[p.root@].parent.is_none()
            &&& forall|i: int| 1 <= i < p.scene.keys().len() ==> (#[trigger] p.scene.tf()[p.scene.keys()[i]]).parent.is_some()
            &&& forall|j: int| 0 <= j < roots@.len() ==> placed_tree(&p.scene, &#[trigger] roots@[j],
                1 + forest_size(roots@, d, j as nat), p.root, meshes@, d)
        },
        r.is_ok() ==> forall|i: int| 0 <= i < roots@.len()
            ==> import_valid(&#[trigger] roots@[i], meshes@.len(), (MAX_PARENT_DEPTH - 1) as nat),
        r.is_err() && (forall|i: int| 0 <= i < roots@.len()
            ==> import_valid(&#[trigger] roots@[i], meshes@.len(), (MAX_PARENT_DEPTH - 1) as nat))
            ==> r == Err::<Prefab, ImportError>(ImportError::TooManyEntities),
{
    let ghost d = (MAX_PARENT_DEPTH - 1) as nat;
    let ghost rs = roots@;
    let mut scene = Scene::new();
    let root = scene.create_entity(TransformComponent::default());
    let ghost first = scene;
    proof {
        assert(parents_precede(&scene)) by {
            assert(scene.keys().len() == 1);
            assert(scene.tf()[scene.keys()[0]].parent.is_none());
        }
        assert(scene.keys()[0] == root@);
        lemma_extends_refl(&scene);
        lemma_forest_mono(rs, d, 0, rs.len());
    }
    let mut i: usize = 0;
    while i < roots.len()
        invariant
            extends(&first, &scene),
            first.wf(),
            parents_precede(&scene),
            first.keys().len() == 1,
            first.keys()[0] == root@,
            first.tf().contains_key(root@),
            is_identity_trs(first.tf()[root@]),
            first.tf()[root@].parent.is_none(),
            d == MAX_PARENT_DEPTH - 1,
            rs == roots@,
            i <= rs.len(),
            forall|u: int| 0 <= u < i ==> import_valid(&#[trigger] rs[u], meshes@.len(), d),
            scene.keys().len() == 1 + forest_size(rs, d, i as nat),
            forall|u: int| 1 <= u < scene.keys().len() ==> (#[trigger] scene.tf()[scene.keys()[u]]).parent.is_some(),
            forall|u: int| 0 <= u < i ==> placed_tree(&scene, &#[trigger] rs[u], 1 + forest_size(rs, d, u as nat), root, meshes@, d),
        decreases rs.len() - i,
    {
        let ghost pre = scene;
        proof {
            lemma_extends_index(&first, &scene, 0);
            assert(scene.tf().contains_key(root@));
            lemma_forest_mono(rs, d, i as nat + 1, rs.len());
            assert(forest_size(rs, d, i as nat + 1) == forest_size(rs, d, i as nat) + tree_size(&rs[i as int], d));
        }
        let res = add_node(&mut scene, &roots[i], meshes, root, MAX_PARENT_DEPTH - 1);
        proof {
            lemma_extends_trans(&first, &pre, &scene);
            assert forall|u: int| 1 <= u < scene.keys().len()
                implies (#[trigger] scene.tf()[scene.keys()[u]]).parent.is_some() by {
                if u < pre.keys().len() {
                    lemma_extends_index(&pre, &scene, u);
                }
            }
        }
        match res {
            Ok(c) => {
                proof {
                    lemma_placed_step(&pre, &scene, rs, 1, root, meshes@, d, i as nat);
                }
            },
            Err(e) => {
                return Err(e);
            },
        }
        i += 1;
    }
    proof {
        lemma_extends_index(&first, &scene, 0);
    }
    Ok(Prefab { root, scene })
}

} // verus!

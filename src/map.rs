//! Building a scene from a map: a tree of nodes, each an empty entity or an
//! instance of a prefab, placed under its parent node.
use vstd::prelude::*;
use crate::components::TransformComponent;
use crate::graft::{grafted, parents_precede, relinked, GraftError, Prefab};
use crate::key::EntityKey;
use crate::math::{identity_cols, Mat4, Quat, Vec3};
use crate::scene::{Scene, MAX_ENTITIES};
use crate::store::lookup;
use crate::transform::MAX_PARENT_DEPTH;

verus! {

/// One node of a map.
#[derive(Debug)]
pub struct Node {
    pub prefab_id: Option<usize>,
    pub children: Vec<Node>,
    pub translation: Vec3,
    pub rotation: Quat,
    pub scale: Vec3,
}

impl Default for Node {
    fn default() -> (r: Self)
        ensures
            r.prefab_id.is_none(),
            r.children@.len() == 0,
            r.translation.bits@ == seq![0u32, 0, 0],
            r.rotation.bits@ == seq![0u32, 0, 0, crate::math::ONE_BITS],
            r.scale.bits@ == seq![crate::math::ONE_BITS, crate::math::ONE_BITS, crate::math::ONE_BITS],
    {
        Node {
            prefab_id: None,
            children: Vec::new(),
            translation: Vec3::zero(),
            rotation: Quat::identity(),
            scale: Vec3::one(),
        }
    }
}

/// A map: the prefab files it instantiates (by index) and its root node.
#[derive(Debug)]
pub struct SceneMap {
    pub prefabs: Vec<String>,
    pub root: Node,
}

/// Why a map could not be loaded.
#[derive(Clone, Copy, Debug, PartialEq, Eq)]
pub enum MapError {
    /// A node names a prefab index that was not loaded.
    UnknownPrefab,
    /// A prefab could not be grafted.
    Graft(GraftError),
    /// The node tree is nested deeper than `MAX_PARENT_DEPTH`.
    TooDeep,
    /// The scene would exceed `MAX_ENTITIES`.
    TooManyEntities,
}

/// Every node, down to `depth` levels, names a loaded prefab that can be
/// grafted, and no node lies deeper.
pub open spec fn map_valid(node: &Node, prefabs: Seq<Prefab>, depth: nat) -> bool
    decreases depth,
{
    &&& depth > 0
    &&& match node.prefab_id {
        None => true,
        Some(i) => i < prefabs.len() && parents_precede(&prefabs[i as int].scene)
            && prefabs[i as int].scene.tf().contains_key(prefabs[i as int].root@),
    }
    &&& forall|j: int| 0 <= j < node.children@.len() ==> map_valid(&#[trigger] node.children@[j], prefabs, (depth - 1) as nat)
}

/// `after` holds `before` unchanged, with entities appended.
pub open spec fn extends(before: &Scene, after: &Scene) -> bool {
    &&& after.wf()
    &&& after.keys().len() >= before.keys().len()
    &&& after.keys().subrange(0, before.keys().len() as int) == before.keys()
    &&& forall|k: u64| #[trigger] before.tf().contains_key(k) ==> after.tf().contains_key(k) && after.tf()[k] == before.tf()[k]
        && lookup(after.meshes(), k) == lookup(before.meshes(), k)
        && lookup(after.cameras(), k) == lookup(before.cameras(), k)
        && lookup(after.players(), k) == lookup(before.players(), k)
}

/// `t` is the transform that a node gives its entity: the node's
/// translation, rotation and scale under `parent`, matrices not yet resolved.
pub open spec fn node_transform(t: TransformComponent, node: &Node, parent: Option<EntityKey>) -> bool {
    &&& t.translation == node.translation
    &&& t.scale == node.scale
    &&& t.rotation == node.rotation
    &&& t.local.cols@ == identity_cols()
    &&& t.world.cols@ == identity_cols()
    &&& t.parent == parent
}

pub(crate) proof fn lemma_extends_trans(a: &Scene, b: &Scene, c: &Scene)
    requires
        extends(a, b),
        extends(b, c),
    ensures
        extends(a, c),
{
    assert(c.keys().subrange(0, a.keys().len() as int) =~= c.keys().subrange(0, b.keys().len() as int).subrange(0, a.keys().len() as int));
}

/// An entity of `a` keeps its position and record in a scene extending `a`.
pub(crate) proof fn lemma_extends_index(a: &Scene, b: &Scene, i: int)
    requires
        a.wf(),
        extends(a, b),
        0 <= i < a.keys().len(),
    ensures
        b.keys()[i] == a.keys()[i],
        b.tf()[b.keys()[i]] == a.tf()[a.keys()[i]],
        b.tf().contains_key(b.keys()[i]),
{
    assert(b.keys().subrange(0, a.keys().len() as int)[i] == b.keys()[i]);
    assert(a.keys().contains(a.keys()[i]));
    assert(a.tf().contains_key(a.keys()[i]));
}

pub(crate) proof fn lemma_extends_refl(a: &Scene)
    requires
        a.wf(),
    ensures
        extends(a, a),
{
    assert(a.keys().subrange(0, a.keys().len() as int) =~= a.keys());
}

/// Entities `n0 .. n0 + |prefab|` of `after` are a copy of `prefab`: each
/// record is the prefab's with its parent relinked into the copy (the copied
/// root's record aside, which the node replaces), with the same components.
pub open spec fn holds_copy(after: &Scene, n0: int, prefab: &Prefab) -> bool {
    let sk = prefab.scene.keys();
    let block = after.keys().subrange(n0, n0 + sk.len());
    let ri = sk.index_of(prefab.root@);
    &&& 0 <= n0
    &&& n0 + sk.len() <= after.keys().len()
    &&& forall|u: int| 0 <= u < sk.len() && u != ri
        ==> after.tf()[#[trigger] block[u]] == relinked(prefab.scene.tf()[sk[u]], sk, block)
    &&& forall|u: int| 0 <= u < sk.len() ==> lookup(after.meshes(), #[trigger] block[u]) == lookup(prefab.scene.meshes(), sk[u])
        && lookup(after.cameras(), block[u]) == lookup(prefab.scene.cameras(), sk[u])
        && lookup(after.players(), block[u]) == lookup(prefab.scene.players(), sk[u])
}

proof fn lemma_holds_copy_extends(a: &Scene, b: &Scene, n0: int, prefab: &Prefab)
    requires
        a.wf(),
        extends(a, b),
        holds_copy(a, n0, prefab),
    ensures
        holds_copy(b, n0, prefab),
{
    let m = prefab.scene.keys().len();
    let ba = a.keys().subrange(n0, n0 + m);
    let bb = b.keys().subrange(n0, n0 + m);
    assert forall|u: int| 0 <= u < m implies #[trigger] bb[u] == ba[u] && b.tf()[bb[u]] == a.tf()[ba[u]]
        && a.tf().contains_key(ba[u]) by {
        lemma_extends_index(a, b, n0 + u);
        assert(a.keys().contains(ba[u]));
    }
    assert(bb =~= ba);
}

/// Entities that the node itself becomes: its prefab's, or one.
pub open spec fn own_entities(node: &Node, prefabs: Seq<Prefab>) -> nat {
    match node.prefab_id {
        None => 1,
        Some(i) => if i < prefabs.len() { prefabs[i as int].scene.keys().len() } else { 0 },
    }
}

/// Where, among the entities the node itself becomes, its own entity is: the
/// position of the prefab's root, or the only one.
pub open spec fn entity_offset(node: &Node, prefabs: Seq<Prefab>) -> nat {
    match node.prefab_id {
        None => 0,
        Some(i) => if i < prefabs.len() {
            prefabs[i as int].scene.keys().index_of(prefabs[i as int].root@) as nat
        } else {
            0
        },
    }
}

/// Entities that `node` and the nodes below it, down to `depth` levels, become.
pub open spec fn node_entities(node: &Node, prefabs: Seq<Prefab>, depth: nat) -> nat
    decreases depth, 0nat,
{
    if depth == 0 {
        0
    } else {
        own_entities(node, prefabs) + children_entities(node.children@, prefabs, (depth - 1) as nat, node.children@.len())
    }
}

/// Entities that the first `n` of `nodes` become, each down to `depth` levels.
pub open spec fn children_entities(nodes: Seq<Node>, prefabs: Seq<Prefab>, depth: nat, n: nat) -> nat
    decreases depth, n + 1,
{
    if n == 0 || n > nodes.len() {
        0
    } else {
        children_entities(nodes, prefabs, depth, (n - 1) as nat) + node_entities(&nodes[n - 1], prefabs, depth)
    }
}

proof fn lemma_children_mono(nodes: Seq<Node>, prefabs: Seq<Prefab>, depth: nat, a: nat, b: nat)
    requires
        a <= b <= nodes.len(),
    ensures
        children_entities(nodes, prefabs, depth, a) <= children_entities(nodes, prefabs, depth, b),
    decreases b - a,
{
    if a < b {
        lemma_children_mono(nodes, prefabs, depth, a, (b - 1) as nat);
    }
}

impl Scene {
    /// Adds the entities of `node` under `parent` (a graft of its prefab, with
    /// the node's transform on the copied root, or one empty entity), then the
    /// nodes below it, in depth-first order. Returns the node's entity.
    /// Succeeds whenever the nodes are valid and the entities fit.
    pub fn load_node(&mut self, prefabs: &Vec<Prefab>, node: &Node, parent: Option<EntityKey>, depth: usize)
        -> (r: Result<EntityKey, MapError>)
        requires
            old(self).wf(),
            forall|i: int| 0 <= i < prefabs@.len() ==> (#[trigger] prefabs@[i]).scene.wf(),
        ensures
            extends(old(self), final(self)),
            map_valid(node, prefabs@, depth as nat)
                && old(self).keys().len() + node_entities(node, prefabs@, depth as nat) < MAX_ENTITIES ==> r.is_ok(),
            r.is_ok() ==> map_valid(node, prefabs@, depth as nat),
            r.is_err() && map_valid(node, prefabs@, depth as nat) ==> r == Err::<EntityKey, MapError>(MapError::TooManyEntities),
            r.is_ok() ==> {
                let k = r.unwrap();
                let n0 = old(self).keys().len();
                let base = n0 + own_entities(node, prefabs@);
                &&& final(self).keys().len() == n0 + node_entities(node, prefabs@, depth as nat)
                &&& final(self).keys()[(n0 + entity_offset(node, prefabs@)) as int] == k@
                &&& entity_offset(node, prefabs@) < own_entities(node, prefabs@)
                &&& !old(self).tf().contains_key(k@)
                &&& final(self).tf().contains_key(k@)
                &&& node_transform(final(self).tf()[k@], node, parent)
                &&& forall|j: int| 0 <= j < node.children@.len() ==> (#[trigger] final(self).tf()[final(self).keys()[
                    (base + children_entities(node.children@, prefabs@, (depth - 1) as nat, j as nat)
                        + entity_offset(&node.children@[j], prefabs@)) as int]]).parent == Some(k)
                &&& node.prefab_id.is_some() ==> holds_copy(final(self), n0 as int, &prefabs@[node.prefab_id.unwrap() as int])
            },
        decreases depth,
    {
        proof {
            lemma_extends_refl(self);
        }
        if depth == 0 {
            return Err(MapError::TooDeep);
        }
        let ghost d1 = (depth - 1) as nat;
        let ghost kids = node.children@;
        let ghost ps = prefabs@;
        proof {
            lemma_children_mono(kids, ps, d1, 0, kids.len());
        }
        let transform = TransformComponent {
            translation: node.translation,
            scale: node.scale,
            rotation: node.rotation,
            local: Mat4::identity(),
            world: Mat4::identity(),
            parent,
        };
        let ghost before = *self;
        let ghost n0 = before.keys().len();
        let id = match node.prefab_id {
            Some(i) => {
                if i >= prefabs.len() {
                    return Err(MapError::UnknownPrefab);
                }
                let prefab = &prefabs[i];
                let n = self.len();
                let m = prefab.scene.len();
                if n >= MAX_ENTITIES || m >= MAX_ENTITIES - n {
                    return Err(MapError::TooManyEntities);
                }
                let root = match self.copy_from(&prefab.scene, prefab.root) {
                    Ok(root) => root,
                    Err(e) => {
                        return Err(MapError::Graft(e));
                    },
                };
                let ghost mid = *self;
                proof {
                    let nk = crate::graft::added_keys(&before, &mid);
                    let j = prefab.scene.keys().index_of(prefab.root@);
                    assert(prefab.scene.keys().contains(prefab.root@));
                    assert(nk[j] == root@);
                    assert(!before.tf().contains_key(root@));
                    assert(mid.keys()[before.keys().len() + j] == root@);
                    assert(mid.keys().contains(root@));
                    assert(mid.keys().subrange(0, before.keys().len() as int) == before.keys());
                    assert(entity_offset(node, ps) == j);
                }
                self.set_transform(root, transform);
                proof {
                    assert forall|k: u64| #[trigger] before.tf().contains_key(k) implies self.tf().contains_key(k)
                        && self.tf()[k] == before.tf()[k] by {
                        assert(mid.tf().contains_key(k));
                        assert(k != root@);
                    }
                    let nk = crate::graft::added_keys(&before, &mid);
                    let ri = prefab.scene.keys().index_of(prefab.root@);
                    assert(nk =~= self.keys().subrange(n0 as int, (n0 + prefab.scene.keys().len()) as int));
                    assert forall|u: int| 0 <= u < prefab.scene.keys().len() && u != ri
                        implies self.tf()[#[trigger] nk[u]] == mid.tf()[nk[u]] by {
                        assert(nk[u] == mid.keys()[n0 + u]);
                        assert(mid.keys()[n0 + u] != mid.keys()[n0 + ri]);
                    }
                    assert(holds_copy(self, n0 as int, prefab));
                }
                root
            },
            None => {
                if self.len() >= MAX_ENTITIES {
                    return Err(MapError::TooManyEntities);
                }
                let k = self.create_entity(transform);
                proof {
                    assert(self.keys().subrange(0, before.keys().len() as int) =~= before.keys());
                }
                k
            },
        };
        let ghost placed = *self;
        proof {
            assert(extends(&before, &placed));
            lemma_extends_refl(&placed);
            assert(placed.keys().len() == n0 + own_entities(node, ps));
            assert(placed.keys()[(n0 + entity_offset(node, ps)) as int] == id@);
        }
        let mut j: usize = 0;
        while j < node.children.len()
            invariant
                forall|i: int| 0 <= i < prefabs@.len() ==> (#[trigger] prefabs@[i]).scene.wf(),
                extends(&placed, self),
                extends(&before, &placed),
                before.wf(),
                placed.wf(),
                n0 == before.keys().len(),
                d1 == depth - 1,
                kids == node.children@,
                ps == prefabs@,
                placed.keys().len() == n0 + own_entities(node, ps),
                placed.keys()[(n0 + entity_offset(node, ps)) as int] == id@,
                entity_offset(node, ps) < own_entities(node, ps),
                placed.tf().contains_key(id@),
                !before.tf().contains_key(id@),
                node_transform(placed.tf()[id@], node, parent),
                before == *old(self),
                depth > 0,
                j <= kids.len(),
                forall|u: int| 0 <= u < j ==> map_valid(&#[trigger] kids[u], ps, d1),
                self.keys().len() == n0 + own_entities(node, ps) + children_entities(kids, ps, d1, j as nat),
                forall|u: int| 0 <= u < j ==> (#[trigger] self.tf()[self.keys()[
                    (n0 + own_entities(node, ps) + children_entities(kids, ps, d1, u as nat)
                        + entity_offset(&kids[u], ps)) as int]]).parent == Some(id),
                map_valid(node, ps, depth as nat) && n0 + node_entities(node, ps, depth as nat) < MAX_ENTITIES
                    ==> n0 + own_entities(node, ps) + children_entities(kids, ps, d1, kids.len()) < MAX_ENTITIES,
            decreases kids.len() - j,
        {
            let ghost pre = *self;
            let ghost base = n0 + own_entities(node, ps);
            proof {
                lemma_children_mono(kids, ps, d1, j as nat + 1, kids.len());
                assert(children_entities(kids, ps, d1, j as nat + 1)
                    == children_entities(kids, ps, d1, j as nat) + node_entities(&kids[j as int], ps, d1));
            }
            let res = self.load_node(prefabs, &node.children[j], Some(id), depth - 1);
            proof {
                lemma_extends_trans(&placed, &pre, self);
            }
            match res {
                Ok(c) => {
                    proof {
                        assert forall|u: int| 0 <= u < j + 1 implies (#[trigger] self.tf()[self.keys()[
                            (base + children_entities(kids, ps, d1, u as nat)
                                + entity_offset(&kids[u], ps)) as int]]).parent == Some(id) by {
                            if u < j {
                                lemma_children_mono(kids, ps, d1, u as nat + 1, j as nat);
                                assert(children_entities(kids, ps, d1, u as nat + 1)
                                    == children_entities(kids, ps, d1, u as nat) + node_entities(&kids[u], ps, d1));
                                assert(d1 > 0);
                                lemma_extends_index(&pre, self, (base + children_entities(kids, ps, d1, u as nat)
                                    + entity_offset(&kids[u], ps)) as int);
                            } else {
                                assert(self.keys()[(pre.keys().len() + entity_offset(&kids[u], ps)) as int] == c@);
                            }
                        }
                    }
                },
                Err(e) => {
                    proof {
                        lemma_extends_trans(&before, &placed, self);
                        if map_valid(node, prefabs@, depth as nat) {
                            assert(map_valid(&node.children@[j as int], prefabs@, (depth - 1) as nat));
                        }
                    }
                    return Err(e);
                },
            }
            j += 1;
        }
        proof {
            lemma_extends_trans(&before, &placed, self);
            assert(map_valid(node, prefabs@, depth as nat));
            lemma_extends_index(&placed, self, (n0 + entity_offset(node, ps)) as int);
            if node.prefab_id.is_some() {
                lemma_holds_copy_extends(&placed, self, n0 as int, &ps[node.prefab_id.unwrap() as int]);
            }
        }
        Ok(id)
    }

    /// Loads `map` into the scene, given its prefabs loaded in order, and
    /// returns the entity of the map's root node. Succeeds whenever the map
    /// is valid and its entities fit.
    pub fn load_map(&mut self, prefabs: &Vec<Prefab>, map: &SceneMap) -> (r: Result<EntityKey, MapError>)
        requires
            old(self).wf(),
            forall|i: int| 0 <= i < prefabs@.len() ==> (#[trigger] prefabs@[i]).scene.wf(),
        ensures
            extends(old(self), final(self)),
            map_valid(&map.root, prefabs@, MAX_PARENT_DEPTH as nat)
                && old(self).keys().len() + node_entities(&map.root, prefabs@, MAX_PARENT_DEPTH as nat) < MAX_ENTITIES
                ==> r.is_ok(),
            r.is_ok() ==> map_valid(&map.root, prefabs@, MAX_PARENT_DEPTH as nat),
            r.is_err() && map_valid(&map.root, prefabs@, MAX_PARENT_DEPTH as nat)
                ==> r == Err::<EntityKey, MapError>(MapError::TooManyEntities),
            r.is_ok() ==> {
                let k = r.unwrap();
                let n0 = old(self).keys().len();
                let base = n0 + own_entities(&map.root, prefabs@);
                let d1 = (MAX_PARENT_DEPTH - 1) as nat;
                &&& final(self).keys().len() == n0 + node_entities(&map.root, prefabs@, MAX_PARENT_DEPTH as nat)
                &&& final(self).keys()[(n0 + entity_offset(&map.root, prefabs@)) as int] == k@
                &&& node_transform(final(self).tf()[k@], &map.root, None)
                &&& map.root.prefab_id.is_some()
                    ==> holds_copy(final(self), n0 as int, &prefabs@[map.root.prefab_id.unwrap() as int])
                &&& forall|j: int| 0 <= j < map.root.children@.len() ==> (#[trigger] final(self).tf()[final(self).keys()[
                    (base + children_entities(map.root.children@, prefabs@, d1, j as nat)
                        + entity_offset(&map.root.children@[j], prefabs@)) as int]]).parent == Some(k)
            },
    {
        self.load_node(prefabs, &map.root, None, MAX_PARENT_DEPTH)
    }
}

} // verus!

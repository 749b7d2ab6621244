//! Prefab instancing: copying a self-contained scene fragment into a scene.
use vstd::prelude::*;
use std::collections::HashMap;
use crate::components::TransformComponent;
use crate::key::{lemma_live_key_normalized, EntityKey};
use crate::scene::{Scene, MAX_ENTITIES};
use crate::store::lookup;
use crate::transform::{lemma_kept_iff, reaches_root, report_matches, resolution, resolved_record, Detachment, MAX_PARENT_DEPTH};

verus! {

broadcast use vstd::std_specs::hash::group_hash_axioms;

/// An importer-built template: a scene fragment and the key of its root.
#[derive(Debug)]
pub struct Prefab {
    pub root: EntityKey,
    pub scene: Scene,
}

/// Why a prefab could not be grafted.
#[derive(Clone, Copy, Debug, PartialEq, Eq)]
pub enum GraftError {
    /// Some entity's parent is not an entity listed before it.
    ParentOutOfOrder,
    /// The root key is not an entity of the prefab.
    RootMissing,
}

/// Every parent is an entity listed before its child, so the insertion
/// order is a topological order of the forest.
pub open spec fn parents_precede(s: &Scene) -> bool {
    forall|i: int| 0 <= i < s.keys().len() ==> match (#[trigger] s.tf()[s.keys()[i]]).parent {
        None => true,
        Some(p) => exists|j: int| 0 <= j < i && s.keys()[j] == p@,
    }
}

/// `t` with its parent moved from the keys `src` to the keys `dst` at the
/// same positions.
pub open spec fn relinked(t: TransformComponent, src: Seq<u64>, dst: Seq<u64>) -> TransformComponent {
    match t.parent {
        None => t,
        Some(p) => TransformComponent { parent: Some(EntityKey { bits: dst[src.index_of(p@)] }), ..t },
    }
}

/// The keys that grafting added to `before`, in the order of the prefab.
pub open spec fn added_keys(before: &Scene, after: &Scene) -> Seq<u64> {
    after.keys().subrange(before.keys().len() as int, after.keys().len() as int)
}

/// `after` is `before` with a copy of `prefab` appended: fresh keys, the
/// same records with parents relinked to the copies, the same components.
pub open spec fn grafted(before: &Scene, prefab: &Scene, after: &Scene) -> bool {
    let nk = added_keys(before, after);
    let sk = prefab.keys();
    &&& after.keys().len() == before.keys().len() + sk.len()
    &&& after.keys().subrange(0, before.keys().len() as int) == before.keys()
    &&& forall|i: int| 0 <= i < nk.len() ==> !before.tf().contains_key(#[trigger] nk[i])
    &&& forall|k: u64| #[trigger] before.tf().contains_key(k) ==> after.tf()[k] == before.tf()[k]
    &&& forall|k: u64| #[trigger] before.tf().contains_key(k) ==> lookup(after.meshes(), k) == lookup(before.meshes(), k)
        && lookup(after.cameras(), k) == lookup(before.cameras(), k)
        && lookup(after.players(), k) == lookup(before.players(), k)
    &&& forall|i: int| 0 <= i < nk.len() ==> after.tf()[#[trigger] nk[i]] == relinked(prefab.tf()[sk[i]], sk, nk)
    &&& forall|i: int| 0 <= i < nk.len() ==> lookup(after.meshes(), #[trigger] nk[i]) == lookup(prefab.meshes(), sk[i])
        && lookup(after.cameras(), nk[i]) == lookup(prefab.cameras(), sk[i])
        && lookup(after.players(), nk[i]) == lookup(prefab.players(), sk[i])
}

proof fn lemma_index_of_unique(s: Seq<u64>, j: int)
    requires
        s.no_duplicates(),
        0 <= j < s.len(),
    ensures
        s.index_of(s[j]) == j,
{
    let i = s.index_of(s[j]);
    assert(0 <= i < s.len() && s[i] == s[j]);
}

impl Scene {
    /// Copies every entity of `other` into this scene, in `other`'s insertion
    /// order, relinking parents to the copies and copying the mesh, camera and
    /// player components; returns the key of the copy of `root`. Fails, with
    /// no change, when a parent of `other` does not precede its child or when
    /// `root` is not an entity of `other`.
    pub fn copy_from(&mut self, other: &Scene, root: EntityKey) -> (r: Result<EntityKey, GraftError>)
        requires
            old(self).wf(),
            other.wf(),
            old(self).keys().len() + other.keys().len() < MAX_ENTITIES,
        ensures
            final(self).wf(),
            r == Err::<EntityKey, GraftError>(GraftError::ParentOutOfOrder) <==> !parents_precede(other),
            r == Err::<EntityKey, GraftError>(GraftError::RootMissing)
                <==> parents_precede(other) && !other.tf().contains_key(root@),
            r.is_err() ==> *final(self) == *old(self),
            r.is_ok() ==> grafted(old(self), other, final(self)),
            r.is_ok() ==> r.unwrap()@ == added_keys(old(self), final(self))[other.keys().index_of(root@)],
    {
        let ghost sk = other.keys();
        let m = other.transforms_sorted.len();
        let mut index: HashMap<u64, usize> = HashMap::new();
        let mut i: usize = 0;
        while i < m
            invariant
                m == sk.len(),
                sk == other.keys(),
                i <= m,
                other.wf(),
                *self == *old(self),
                self.wf(),
                forall|k: u64| #[trigger] index@.contains_key(k) ==> index@[k] < i && sk[index@[k] as int] == k,
                forall|t: int| 0 <= t < i ==> index@.contains_key(#[trigger] sk[t]),
                forall|t: int| 0 <= t < i ==> match (#[trigger] other.tf()[sk[t]]).parent {
                    None => true,
                    Some(p) => exists|j: int| 0 <= j < t && sk[j] == p@,
                },
            decreases m - i,
        {
            let k = other.transforms_sorted[i];
            proof {
                assert(crate::key::is_live_key(other.keys()[i as int]));
                lemma_live_key_normalized(k);
                assert(sk.contains(k));
            }
            let t = match other.transform(EntityKey { bits: k }) {
                Some(t) => t,
                None => TransformComponent::default(),
            };
            match t.parent {
                Some(p) => {
                    if index.get(&p.stored_bits()).is_none() {
                        proof {
                            assert forall|j: int| 0 <= j < i implies sk[j] != p@ by {
                                assert(index@.contains_key(sk[j]));
                            }
                            assert(!(exists|j: int| 0 <= j < i && sk[j] == p@));
                            assert(!parents_precede(other)) by {
                                assert(other.tf()[sk[i as int]].parent == Some(p));
                            }
                        }
                        return Err(GraftError::ParentOutOfOrder);
                    }
                },
                None => {},
            }
            index.insert(k, i);
            proof {
                match t.parent {
                    Some(p) => {
                        let j = index@[p@] as int;
                        assert(sk[j] == p@);
                    },
                    None => {},
                }
            }
            i += 1;
        }
        let root_pos = match index.get(&root.stored_bits()) {
            Some(j) => *j,
            None => {
                proof {
                    if other.tf().contains_key(root@) {
                        assert(sk.contains(root@));
                        let t = choose|t: int| 0 <= t < sk.len() && sk[t] == root@;
                        assert(index@.contains_key(sk[t]));
                    }
                }
                return Err(GraftError::RootMissing);
            },
        };

        let ghost before = *self;
        let n0 = self.transforms_sorted.len();
        let mut i: usize = 0;
        while i < m
            invariant
                m == sk.len(),
                sk == other.keys(),
                i <= m,
                other.wf(),
                n0 == before.keys().len(),
                before.wf(),
                before.keys().len() + m < MAX_ENTITIES,
                forall|k: u64| #[trigger] index@.contains_key(k) ==> index@[k] < m && sk[index@[k] as int] == k,
                forall|t: int| 0 <= t < m ==> index@.contains_key(#[trigger] sk[t]),
                parents_precede(other),
                self.wf(),
                self.keys().len() == n0 + i,
                self.keys().subrange(0, n0 as int) == before.keys(),
                forall|t: int| 0 <= t < i ==> !before.tf().contains_key(#[trigger] self.keys()[n0 + t]),
                forall|k: u64| #[trigger] before.tf().contains_key(k) ==> self.tf()[k] == before.tf()[k],
                forall|k: u64| #[trigger] before.tf().contains_key(k) ==> lookup(self.meshes(), k) == lookup(before.meshes(), k)
                    && lookup(self.cameras(), k) == lookup(before.cameras(), k)
                    && lookup(self.players(), k) == lookup(before.players(), k),
                forall|t: int| 0 <= t < i ==> self.tf()[#[trigger] self.keys()[n0 + t]]
                    == relinked(other.tf()[sk[t]], sk, self.keys().subrange(n0 as int, n0 + i)),
                forall|t: int| 0 <= t < i ==> lookup(self.meshes(), #[trigger] self.keys()[n0 + t]) == lookup(other.meshes(), sk[t])
                    && lookup(self.cameras(), self.keys()[n0 + t]) == lookup(other.cameras(), sk[t])
                    && lookup(self.players(), self.keys()[n0 + t]) == lookup(other.players(), sk[t]),
            decreases m - i,
        {
            let k = other.transforms_sorted[i];
            proof {
                assert(crate::key::is_live_key(other.keys()[i as int]));
                lemma_live_key_normalized(k);
                assert(sk.contains(k));
            }
            let t = match other.transform(EntityKey { bits: k }) {
                Some(t) => t,
                None => TransformComponent::default(),
            };
            let parent = match t.parent {
                Some(p) => match index.get(&p.stored_bits()) {
                    Some(j) => {
                        proof {
                            assert(other.tf()[sk[i as int]].parent == Some(p));
                            let jj = choose|jj: int| 0 <= jj < i && sk[jj] == p@;
                            assert(index@.contains_key(sk[jj]));
                            lemma_index_of_unique(sk, jj);
                        }
                        Some(EntityKey { bits: self.transforms_sorted[n0 + *j] })
                    },
                    None => None,
                },
                None => None,
            };
            let ghost pre = *self;
            let nk = self.create_entity(TransformComponent { parent, ..t });
            proof {
                let ks = self.keys();
                assert(ks.subrange(0, n0 as int) =~= pre.keys().subrange(0, n0 as int));
                assert(ks[n0 + i] == nk@);
                assert forall|u: int| 0 <= u < i implies #[trigger] ks[n0 + u] != nk@ by {
                    assert(pre.tf().contains_key(pre.keys()[n0 + u]));
                }
                assert forall|k2: u64| #[trigger] before.tf().contains_key(k2) implies k2 != nk@ by {
                    assert(before.keys().contains(k2));
                    let u = choose|u: int| 0 <= u < before.keys().len() && before.keys()[u] == k2;
                    assert(pre.keys()[u] == k2);
                    assert(pre.tf().contains_key(k2));
                }
            }
            let ghost pre2 = *self;
            match other.mesh(EntityKey { bits: k }) {
                Some(mesh) => {
                    self.insert_mesh(nk, mesh.clone());
                },
                None => {},
            }
            match other.camera(EntityKey { bits: k }) {
                Some(c) => {
                    self.insert_camera(nk, c);
                },
                None => {},
            }
            match other.player(EntityKey { bits: k }) {
                Some(p) => {
                    self.insert_player(nk, p);
                },
                None => {},
            }
            proof {
                let ks = self.keys();
                let nks = ks.subrange(n0 as int, n0 + i + 1);
                assert forall|u: int| 0 <= u < i + 1 implies self.tf()[#[trigger] self.keys()[n0 + u]]
                    == relinked(other.tf()[sk[u]], sk, nks) by {
                    if u < i {
                        let old_nks = pre.keys().subrange(n0 as int, n0 + i);
                        assert(pre.tf()[pre.keys()[n0 + u]] == relinked(other.tf()[sk[u]], sk, old_nks));
                        match other.tf()[sk[u]].parent {
                            Some(p) => {
                                let jj = choose|jj: int| 0 <= jj < u && sk[jj] == p@;
                                lemma_index_of_unique(sk, jj);
                                assert(old_nks[jj] == nks[jj]);
                            },
                            None => {},
                        }
                    } else {
                        match other.tf()[sk[u]].parent {
                            Some(p) => {
                                let jj = choose|jj: int| 0 <= jj < u && sk[jj] == p@;
                                lemma_index_of_unique(sk, jj);
                            },
                            None => {},
                        }
                    }
                }
                assert forall|u: int| 0 <= u < i + 1 implies lookup(self.meshes(), #[trigger] self.keys()[n0 + u]) == lookup(other.meshes(), sk[u])
                    && lookup(self.cameras(), self.keys()[n0 + u]) == lookup(other.cameras(), sk[u])
                    && lookup(self.players(), self.keys()[n0 + u]) == lookup(other.players(), sk[u]) by {
                    if u < i {
                        assert(pre.keys()[n0 + u] != nk@);
                    }
                }
                assert forall|u: int| 0 <= u < i + 1 implies !before.tf().contains_key(#[trigger] self.keys()[n0 + u]) by {
                    if u < i {
                        assert(self.keys()[n0 + u] == pre.keys()[n0 + u]);
                    }
                }
            }
            i += 1;
        }
        proof {
            lemma_index_of_unique(sk, root_pos as int);
            let nk = added_keys(&before, self);
            assert(nk =~= self.keys().subrange(n0 as int, n0 + m));
            assert forall|u: int| 0 <= u < nk.len() implies !before.tf().contains_key(#[trigger] nk[u]) by {
                assert(nk[u] == self.keys()[n0 + u]);
            }
            assert forall|u: int| 0 <= u < nk.len() implies self.tf()[#[trigger] nk[u]]
                == relinked(other.tf()[sk[u]], sk, nk) by {
                assert(nk[u] == self.keys()[n0 + u]);
            }
            assert forall|u: int| 0 <= u < nk.len() implies lookup(self.meshes(), #[trigger] nk[u]) == lookup(other.meshes(), sk[u])
                && lookup(self.cameras(), nk[u]) == lookup(other.cameras(), sk[u])
                && lookup(self.players(), nk[u]) == lookup(other.players(), sk[u]) by {
                assert(nk[u] == self.keys()[n0 + u]);
            }
            assert(grafted(&before, other, self));
            assert(crate::key::is_live_key(self.keys()[n0 + root_pos]));
            lemma_live_key_normalized(self.keys()[n0 + root_pos]);
            assert(nk[root_pos as int] == self.keys()[n0 + root_pos]);
        }
        Ok(EntityKey { bits: self.transforms_sorted[n0 + root_pos] })
    }
}

/// Grafts `prefab` into `scene` and returns the key of the new root.
pub fn graft(scene: &mut Scene, prefab: &Prefab) -> (r: Result<EntityKey, GraftError>)
    requires
        old(scene).wf(),
        prefab.scene.wf(),
        old(scene).keys().len() + prefab.scene.keys().len() < MAX_ENTITIES,
    ensures
        final(scene).wf(),
        r == Err::<EntityKey, GraftError>(GraftError::ParentOutOfOrder) <==> !parents_precede(&prefab.scene),
        r == Err::<EntityKey, GraftError>(GraftError::RootMissing)
            <==> parents_precede(&prefab.scene) && !prefab.scene.tf().contains_key(prefab.root@),
        r.is_err() ==> *final(scene) == *old(scene),
        r.is_ok() ==> grafted(old(scene), &prefab.scene, final(scene)),
        r.is_ok() ==> r.unwrap()@ == added_keys(old(scene), final(scene))[prefab.scene.keys().index_of(prefab.root@)],
{
    scene.copy_from(&prefab.scene, prefab.root)
}

// ---------------------------------------------------------------------------
// Laws of grafting.

/// Grafting one prefab twice gives two copies whose keys are disjoint and
/// whose records are the prefab's, each relinked within its own copy.
pub proof fn lemma_graft_twice_disjoint(s0: &Scene, prefab: &Scene, s1: &Scene, s2: &Scene)
    requires
        s0.wf(),
        s1.wf(),
        s2.wf(),
        grafted(s0, prefab, s1),
        grafted(s1, prefab, s2),
    ensures
        added_keys(s0, s1).len() == prefab.keys().len(),
        added_keys(s1, s2).len() == prefab.keys().len(),
        forall|i: int, j: int| 0 <= i < prefab.keys().len() && 0 <= j < prefab.keys().len()
            ==> #[trigger] added_keys(s0, s1)[i] != #[trigger] added_keys(s1, s2)[j],
        forall|i: int| 0 <= i < prefab.keys().len() ==> s2.tf()[#[trigger] added_keys(s0, s1)[i]]
            == relinked(prefab.tf()[prefab.keys()[i]], prefab.keys(), added_keys(s0, s1)),
        forall|i: int| 0 <= i < prefab.keys().len() ==> s2.tf()[#[trigger] added_keys(s1, s2)[i]]
            == relinked(prefab.tf()[prefab.keys()[i]], prefab.keys(), added_keys(s1, s2)),
{
    let a = added_keys(s0, s1);
    let b = added_keys(s1, s2);
    assert forall|i: int| 0 <= i < a.len() implies #[trigger] s1.tf().contains_key(a[i]) by {
        assert(a[i] == s1.keys()[s0.keys().len() + i]);
        assert(s1.keys().contains(a[i]));
    }
    assert forall|i: int, j: int| 0 <= i < prefab.keys().len() && 0 <= j < prefab.keys().len()
        implies #[trigger] a[i] != #[trigger] b[j] by {
        assert(s1.tf().contains_key(a[i]));
        assert(!s1.tf().contains_key(b[j]));
    }
    assert forall|i: int| 0 <= i < prefab.keys().len() implies s2.tf()[#[trigger] a[i]]
        == relinked(prefab.tf()[prefab.keys()[i]], prefab.keys(), a) by {
        assert(s1.tf().contains_key(a[i]));
    }
}

/// The copy `nk` of a prefab that parents precede: every parent of a copied
/// entity is a copied entity at the position of the prefab parent.
proof fn lemma_copy_parent(s: &Scene, prefab: &Scene, nk: Seq<u64>, i: int)
    requires
        s.wf(),
        prefab.wf(),
        parents_precede(prefab),
        nk.len() == prefab.keys().len(),
        forall|u: int| 0 <= u < nk.len() ==> s.keys().contains(#[trigger] nk[u]),
        forall|u: int| 0 <= u < nk.len() ==> s.tf()[#[trigger] nk[u]]
            == relinked(prefab.tf()[prefab.keys()[u]], prefab.keys(), nk),
        0 <= i < nk.len(),
    ensures
        s.tf()[nk[i]].parent.is_none() == prefab.tf()[prefab.keys()[i]].parent.is_none(),
        prefab.tf()[prefab.keys()[i]].parent.is_some() ==> {
            let j = prefab.keys().index_of(prefab.tf()[prefab.keys()[i]].parent.unwrap()@);
            &&& 0 <= j < i
            &&& prefab.keys()[j] == prefab.tf()[prefab.keys()[i]].parent.unwrap()@
            &&& s.tf()[nk[i]].parent.unwrap()@ == nk[j]
        },
{
    let sk = prefab.keys();
    assert(s.tf()[nk[i]] == relinked(prefab.tf()[sk[i]], sk, nk));
    match prefab.tf()[sk[i]].parent {
        Some(p) => {
            let jj = choose|jj: int| 0 <= jj < i && sk[jj] == p@;
            lemma_index_of_unique(sk, jj);
            assert(s.keys().contains(nk[jj]));
            let t = choose|t: int| 0 <= t < s.keys().len() && s.keys()[t] == nk[jj];
            assert(crate::key::is_live_key(s.keys()[t]));
            lemma_live_key_normalized(nk[jj]);
        },
        None => {},
    }
}

proof fn lemma_copy_reaches(s: &Scene, prefab: &Scene, nk: Seq<u64>, i: int, steps: nat)
    requires
        s.wf(),
        prefab.wf(),
        parents_precede(prefab),
        nk.len() == prefab.keys().len(),
        forall|u: int| 0 <= u < nk.len() ==> s.keys().contains(#[trigger] nk[u]),
        forall|u: int| 0 <= u < nk.len() ==> s.tf()[#[trigger] nk[u]]
            == relinked(prefab.tf()[prefab.keys()[u]], prefab.keys(), nk),
        0 <= i < nk.len(),
        reaches_root(prefab.tf(), prefab.keys()[i], steps),
    ensures
        reaches_root(s.tf(), nk[i], steps),
    decreases steps,
{
    lemma_copy_parent(s, prefab, nk, i);
    assert(s.tf().contains_key(nk[i]));
    match prefab.tf()[prefab.keys()[i]].parent {
        Some(p) => {
            let j = prefab.keys().index_of(p@);
            lemma_copy_reaches(s, prefab, nk, j, (steps - 1) as nat);
        },
        None => {},
    }
}

/// Entities in `c` have their parents in `c`, and `m` and `m2` agree on `c`.
pub open spec fn agree_on_closed(m: Map<u64, TransformComponent>, m2: Map<u64, TransformComponent>, c: Set<u64>) -> bool {
    &&& forall|k: u64| #[trigger] c.contains(k) ==> m.contains_key(k) && m2.contains_key(k) && m2[k] == m[k]
    &&& forall|k: u64| #[trigger] c.contains(k) && m[k].parent.is_some() ==> c.contains(m[k].parent.unwrap()@)
}

proof fn lemma_reaches_transfer(m: Map<u64, TransformComponent>, m2: Map<u64, TransformComponent>, c: Set<u64>, k: u64, s: nat)
    requires
        agree_on_closed(m, m2, c),
        c.contains(k),
        reaches_root(m, k, s),
    ensures
        reaches_root(m2, k, s),
    decreases s,
{
    match m[k].parent {
        Some(p) => lemma_reaches_transfer(m, m2, c, p@, (s - 1) as nat),
        None => {},
    }
}

/// Resolution of a parent-closed set of entities whose old chains reach a
/// root depends only on their own records.
proof fn lemma_local_record(
    m: Map<u64, TransformComponent>,
    m2: Map<u64, TransformComponent>,
    r: Map<u64, TransformComponent>,
    r2: Map<u64, TransformComponent>,
    rep: Seq<Detachment>,
    rep2: Seq<Detachment>,
    c: Set<u64>,
    k: u64,
    n: nat,
)
    requires
        agree_on_closed(m, m2, c),
        resolution(m, r),
        resolution(m2, r2),
        report_matches(m, r, rep),
        report_matches(m2, r2, rep2),
        c.contains(k),
        reaches_root(m, k, n),
    ensures
        r2[k].world == r[k].world,
        r2[k].parent == r[k].parent,
    decreases n, 0nat,
{
    assert(m.contains_key(k) && m2.contains_key(k) && m2[k] == m[k]);
    assert(resolved_record(m[k], r[k]));
    assert(resolved_record(m2[k], r2[k]));
    assert(r.contains_key(k) && r2.contains_key(k));
    match m[k].parent {
        Some(p) => {
            assert(c.contains(p@));
            lemma_reaches_transfer(m, m2, c, k, n);
            lemma_kept_iff(m, r, rep, k, n);
            lemma_kept_iff(m2, r2, rep2, k, n);
            lemma_reach_same(m, m2, r, r2, rep, rep2, c, p@, (n - 1) as nat, (MAX_PARENT_DEPTH - 1) as nat);
            if r[k].parent == Some(p) {
                lemma_local_record(m, m2, r, r2, rep, rep2, c, p@, (n - 1) as nat);
            }
        },
        None => {},
    }
}

proof fn lemma_reach_same(
    m: Map<u64, TransformComponent>,
    m2: Map<u64, TransformComponent>,
    r: Map<u64, TransformComponent>,
    r2: Map<u64, TransformComponent>,
    rep: Seq<Detachment>,
    rep2: Seq<Detachment>,
    c: Set<u64>,
    y: u64,
    n: nat,
    s: nat,
)
    requires
        agree_on_closed(m, m2, c),
        resolution(m, r),
        resolution(m2, r2),
        report_matches(m, r, rep),
        report_matches(m2, r2, rep2),
        c.contains(y),
        reaches_root(m, y, n),
    ensures
        reaches_root(r, y, s) <==> reaches_root(r2, y, s),
    decreases n, 1nat, s,
{
    lemma_local_record(m, m2, r, r2, rep, rep2, c, y, n);
    assert(m.contains_key(y) && m2.contains_key(y));
    assert(r.contains_key(y) && r2.contains_key(y));
    assert(resolved_record(m[y], r[y]));
    match r[y].parent {
        Some(q) => {
            assert(m[y].parent == Some(q));
            assert(c.contains(q@));
            if s > 0 {
                lemma_reach_same(m, m2, r, r2, rep, rep2, c, q@, (n - 1) as nat, (s - 1) as nat);
            }
        },
        None => {},
    }
}

/// In a scene whose parents precede their children, each entity reaches a
/// root within as many links as its position.
proof fn lemma_precede_reaches(s: &Scene, j: int)
    requires
        s.wf(),
        parents_precede(s),
        0 <= j < s.keys().len(),
    ensures
        reaches_root(s.tf(), s.keys()[j], j as nat),
    decreases j,
{
    assert(s.keys().contains(s.keys()[j]));
    match s.tf()[s.keys()[j]].parent {
        Some(p) => {
            let jj = choose|jj: int| 0 <= jj < j && s.keys()[jj] == p@;
            lemma_precede_reaches(s, jj);
            crate::transform::lemma_reaches_more(s.tf(), p@, jj as nat, (j - 1) as nat);
        },
        None => {},
    }
}

/// Grafting one prefab twice, then changing any record of the first copy,
/// leaves the resolved world matrices of the second copy as they were.
pub proof fn lemma_graft_isolation(
    s0: &Scene,
    prefab: &Scene,
    s1: &Scene,
    s2: &Scene,
    i: int,
    t: TransformComponent,
    r2: Map<u64, TransformComponent>,
    rep2: Seq<Detachment>,
    r3: Map<u64, TransformComponent>,
    rep3: Seq<Detachment>,
)
    requires
        s0.wf(),
        prefab.wf(),
        s1.wf(),
        s2.wf(),
        parents_precede(prefab),
        grafted(s0, prefab, s1),
        grafted(s1, prefab, s2),
        0 <= i < prefab.keys().len(),
        resolution(s2.tf(), r2),
        report_matches(s2.tf(), r2, rep2),
        resolution(s2.tf().insert(added_keys(s0, s1)[i], t), r3),
        report_matches(s2.tf().insert(added_keys(s0, s1)[i], t), r3, rep3),
    ensures
        forall|j: int| 0 <= j < prefab.keys().len()
            ==> r3[#[trigger] added_keys(s1, s2)[j]].world == r2[added_keys(s1, s2)[j]].world,
{
    let a = added_keys(s0, s1);
    let b = added_keys(s1, s2);
    let sk = prefab.keys();
    let m = s2.tf();
    let m2 = m.insert(a[i], t);
    lemma_graft_twice_disjoint(s0, prefab, s1, s2);
    let c = Set::new(|k: u64| exists|j: int| 0 <= j < b.len() && b[j] == k);
    assert forall|u: int| 0 <= u < b.len() implies s2.keys().contains(#[trigger] b[u]) by {
        assert(b[u] == s2.keys()[s1.keys().len() + u]);
    }
    assert forall|k: u64| #[trigger] c.contains(k) implies m.contains_key(k) && m2.contains_key(k) && m2[k] == m[k] by {
        let j = choose|j: int| 0 <= j < b.len() && b[j] == k;
        assert(s2.keys().contains(b[j]));
        assert(a[i] != b[j]);
    }
    assert forall|k: u64| #[trigger] c.contains(k) && m[k].parent.is_some() implies c.contains(m[k].parent.unwrap()@) by {
        let j = choose|j: int| 0 <= j < b.len() && b[j] == k;
        lemma_copy_parent(s2, prefab, b, j);
        let jj = sk.index_of(prefab.tf()[sk[j]].parent.unwrap()@);
        assert(b[jj] == m[k].parent.unwrap()@);
    }
    assert(agree_on_closed(m, m2, c));
    assert forall|j: int| 0 <= j < sk.len() implies r3[#[trigger] b[j]].world == r2[b[j]].world by {
        lemma_precede_reaches(prefab, j);
        lemma_copy_reaches(s2, prefab, b, j, j as nat);
        assert(c.contains(b[j]));
        lemma_local_record(m, m2, r2, r3, rep2, rep3, c, b[j], j as nat);
    }
}

/// Entities of a parent-closed set that `r` resolved keep their records
/// when a scene that agrees with `r` on them is resolved again.
proof fn lemma_resolved_stable(
    m: Map<u64, TransformComponent>,
    r: Map<u64, TransformComponent>,
    m2: Map<u64, TransformComponent>,
    r2: Map<u64, TransformComponent>,
    c: Set<u64>,
    k: u64,
    s: nat,
)
    requires
        resolution(m, r),
        resolution(m2, r2),
        agree_on_closed(r, m2, c),
        c.contains(k),
        reaches_root(r, k, s),
        s <= MAX_PARENT_DEPTH,
    ensures
        r2[k] == r[k],
    decreases s,
{
    assert(r.contains_key(k) && m2.contains_key(k) && m2[k] == r[k]);
    assert(m.contains_key(k));
    assert(resolved_record(m[k], r[k]));
    assert(resolved_record(m2[k], r2[k]));
    assert(r2.contains_key(k));
    lemma_reaches_transfer(r, m2, c, k, s);
    crate::transform::lemma_reaches_more(m2, k, s, MAX_PARENT_DEPTH as nat);
    assert(r2[k].parent == m2[k].parent);
    match r[k].parent {
        Some(p) => {
            lemma_resolved_stable(m, r, m2, r2, c, p@, (s - 1) as nat);
        },
        None => {},
    }
}

/// Grafting one prefab twice and resolving, then changing any record of the
/// first copy in the resolved scene and resolving again, leaves the world
/// matrices of the second copy as the first resolution gave them.
pub proof fn lemma_graft_isolation_after_resolving(
    s0: &Scene,
    prefab: &Scene,
    s1: &Scene,
    s2: &Scene,
    i: int,
    t: TransformComponent,
    r2: Map<u64, TransformComponent>,
    r4: Map<u64, TransformComponent>,
)
    requires
        s0.wf(),
        prefab.wf(),
        s1.wf(),
        s2.wf(),
        parents_precede(prefab),
        grafted(s0, prefab, s1),
        grafted(s1, prefab, s2),
        0 <= i < prefab.keys().len(),
        resolution(s2.tf(), r2),
        resolution(r2.insert(added_keys(s0, s1)[i], t), r4),
    ensures
        forall|j: int| 0 <= j < prefab.keys().len()
            ==> r4[#[trigger] added_keys(s1, s2)[j]].world == r2[added_keys(s1, s2)[j]].world,
{
    let a = added_keys(s0, s1);
    let b = added_keys(s1, s2);
    let sk = prefab.keys();
    let m = s2.tf();
    let m2 = r2.insert(a[i], t);
    lemma_graft_twice_disjoint(s0, prefab, s1, s2);
    let c = Set::new(|k: u64| exists|j: int| 0 <= j < b.len() && b[j] == k);
    assert forall|u: int| 0 <= u < b.len() implies s2.keys().contains(#[trigger] b[u]) by {
        assert(b[u] == s2.keys()[s1.keys().len() + u]);
    }
    assert forall|k: u64| #[trigger] c.contains(k) implies r2.contains_key(k) && m2.contains_key(k) && m2[k] == r2[k] by {
        let j = choose|j: int| 0 <= j < b.len() && b[j] == k;
        assert(s2.keys().contains(b[j]));
        assert(a[i] != b[j]);
    }
    assert forall|k: u64| #[trigger] c.contains(k) && r2[k].parent.is_some() implies c.contains(r2[k].parent.unwrap()@) by {
        let j = choose|j: int| 0 <= j < b.len() && b[j] == k;
        assert(s2.keys().contains(b[j]));
        assert(resolved_record(m[k], r2[k]));
        lemma_copy_parent(s2, prefab, b, j);
        let jj = sk.index_of(prefab.tf()[sk[j]].parent.unwrap()@);
        assert(b[jj] == m[k].parent.unwrap()@);
    }
    assert(agree_on_closed(r2, m2, c));
    assert forall|j: int| 0 <= j < sk.len() implies r4[#[trigger] b[j]].world == r2[b[j]].world by {
        assert(c.contains(b[j]));
        assert(r2.contains_key(b[j]));
        lemma_resolved_stable(m, r2, m2, r4, c, b[j], MAX_PARENT_DEPTH as nat);
    }
}

} // verus!

//! Transform resolution: local matrices from translation, rotation and scale,
//! then world matrices composed along the parent chain.
//!
//! The parent graph is not trusted: a parent that is missing, a parent chain
//! that loops back, or one longer than `MAX_PARENT_DEPTH` detaches the entity
//! (it becomes a root for good) instead of failing.
use vstd::prelude::*;
use std::collections::HashMap;
use crate::components::TransformComponent;
use crate::key::{lemma_live_key_normalized, EntityKey};
use crate::math::{compose_trs, mat_product, mul_mat4, trs_matrix, Mat4};
use crate::scene::Scene;
use crate::store::{get_transform, set_transform};

verus! {

broadcast use vstd::std_specs::hash::group_hash_axioms;

/// The longest parent chain that is kept; a deeper entity is detached.
pub const MAX_PARENT_DEPTH: usize = 64;

/// Following parents from `k` reaches a root within `steps` links, through
/// entities of `m` only.
pub open spec fn reaches_root(m: Map<u64, TransformComponent>, k: u64, steps: nat) -> bool
    decreases steps,
{
    m.contains_key(k) && match m[k].parent {
        None => true,
        Some(p) => steps > 0 && reaches_root(m, p@, (steps - 1) as nat),
    }
}

/// Every entity reaches a root within `MAX_PARENT_DEPTH` links: the parent
/// graph is a forest of bounded depth.
pub open spec fn is_forest(m: Map<u64, TransformComponent>) -> bool {
    forall|k: u64| #[trigger] m.contains_key(k) ==> reaches_root(m, k, MAX_PARENT_DEPTH as nat)
}

/// A root's world matrix is its local one; a child's is its parent's world
/// matrix times its local one.
pub open spec fn worlds_consistent(m: Map<u64, TransformComponent>) -> bool {
    forall|k: u64| #[trigger] m.contains_key(k) ==> match m[k].parent {
        None => m[k].world == m[k].local,
        Some(p) => m.contains_key(p@) && m[k].world == mat_product(m[p@].world, m[k].local),
    }
}

/// One record after resolution: same translation, rotation and scale, the
/// local matrix recomputed from them, the parent kept or cleared.
pub open spec fn resolved_record(before: TransformComponent, after: TransformComponent) -> bool {
    &&& after.translation == before.translation
    &&& after.rotation == before.rotation
    &&& after.scale == before.scale
    &&& after.local == trs_matrix(before.scale, before.rotation, before.translation)
    &&& (after.parent == before.parent || after.parent.is_none())
}

/// `after` is what resolving `before` yields.
pub open spec fn resolution(before: Map<u64, TransformComponent>, after: Map<u64, TransformComponent>) -> bool {
    &&& after.dom() == before.dom()
    &&& forall|k: u64| #[trigger] before.contains_key(k) ==> resolved_record(before[k], after[k])
    &&& forall|k: u64|
        #[trigger] reaches_root(before, k, MAX_PARENT_DEPTH as nat) ==> after[k].parent == before[k].parent
    &&& worlds_consistent(after)
    &&& is_forest(after)
}

/// `k` had a parent before and has none after.
pub open spec fn detached(before: Map<u64, TransformComponent>, after: Map<u64, TransformComponent>, k: u64) -> bool {
    before.contains_key(k) && before[k].parent.is_some() && after[k].parent.is_none()
}

/// Why an entity lost its parent.
#[derive(Clone, Copy, Debug, PartialEq, Eq)]
pub enum DetachCause {
    /// The parent key is not an entity of the scene.
    MissingParent,
    /// The parent chain leads back to the entity.
    Cycle,
    /// The parent chain is longer than `MAX_PARENT_DEPTH`.
    TooDeep,
}

/// A diagnostic record of one detached entity.
#[derive(Clone, Copy, Debug, PartialEq, Eq)]
pub struct Detachment {
    pub entity: EntityKey,
    pub cause: DetachCause,
}

/// The entity `n` parent links above `k`, if the chain goes that far.
pub open spec fn ancestor(m: Map<u64, TransformComponent>, k: u64, n: nat) -> Option<u64>
    decreases n,
{
    if n == 0 {
        Some(k)
    } else if m.contains_key(k) && m[k].parent.is_some() {
        ancestor(m, m[k].parent.unwrap()@, (n - 1) as nat)
    } else {
        None
    }
}

/// `after` with the parent of `k` put back as it was in `before`.
pub open spec fn restored(before: Map<u64, TransformComponent>, after: Map<u64, TransformComponent>, k: u64) -> Map<u64, TransformComponent> {
    after.insert(k, TransformComponent { parent: before[k].parent, ..after[k] })
}

/// The report names exactly the detached entities, each with its cause: a
/// parent that does not exist, a parent chain that leads back to the
/// entity, or a parent that does not reach a root within
/// `MAX_PARENT_DEPTH - 1` links. An entity detached for a missing parent or
/// a too deep chain could not keep its parent: with it put back, the entity
/// would not reach a root within `MAX_PARENT_DEPTH` links. The parent of an
/// entity detached for a cycle is not itself detached for a cycle (unless
/// the entity is its own parent): one cut per cycle.
pub open spec fn report_matches(
    before: Map<u64, TransformComponent>,
    after: Map<u64, TransformComponent>,
    report: Seq<Detachment>,
) -> bool {
    &&& forall|t: int| 0 <= t < report.len() ==> detached(before, after, #[trigger] report[t].entity@)
    &&& forall|t: int| 0 <= t < report.len() ==> {
        let k = (#[trigger] report[t]).entity@;
        let p = before[k].parent.unwrap()@;
        match report[t].cause {
            DetachCause::MissingParent => !before.contains_key(p),
            DetachCause::Cycle => before.contains_key(p) && exists|n: nat| ancestor(before, p, n) == Some(k),
            DetachCause::TooDeep => before.contains_key(p)
                && !reaches_root(before, p, (MAX_PARENT_DEPTH - 1) as nat),
        }
    }
    &&& forall|t: int| 0 <= t < report.len() && (#[trigger] report[t]).cause != DetachCause::Cycle
        ==> !reaches_root(restored(before, after, report[t].entity@), report[t].entity@, MAX_PARENT_DEPTH as nat)
    &&& forall|t1: int, t2: int|
        0 <= t1 < report.len() && 0 <= t2 < report.len()
            && (#[trigger] report[t1]).cause == DetachCause::Cycle && (#[trigger] report[t2]).cause == DetachCause::Cycle
            && before[report[t1].entity@].parent.unwrap()@ == report[t2].entity@
            ==> report[t2].entity@ == report[t1].entity@
    &&& forall|k: u64| #[trigger] detached(before, after, k) ==>
        exists|t: int| 0 <= t < report.len() && report[t].entity@ == k
}

// ---------------------------------------------------------------------------
// The walk over entity positions.

/// Where the parent of the entity at one position is.
#[derive(Clone, Copy)]
enum Link {
    Root,
    Missing,
    At(usize),
}

const UNVISITED: u8 = 0;
const ACTIVE: u8 = 1;
const DONE: u8 = 2;

/// Per-position state of the walk.
#[derive(Clone, Copy)]
struct Slot {
    status: u8,
    world: Mat4,
    kept: bool,
    depth: usize,
    /// Detached because its parent was still being resolved.
    cycle: bool,
}

/// The position `c` parent links above position `i`.
spec fn anc(links: Seq<Link>, i: int, c: nat) -> Option<int>
    decreases c,
{
    if c == 0 {
        Some(i)
    } else if 0 <= i < links.len() {
        match links[i] {
            Link::At(j) => anc(links, j as int, (c - 1) as nat),
            _ => None,
        }
    } else {
        None
    }
}

/// Following links from position `i` reaches a root within `s` links.
spec fn idx_reaches(links: Seq<Link>, i: int, s: nat) -> bool
    decreases s,
{
    0 <= i < links.len() && match links[i] {
        Link::Root => true,
        Link::Missing => false,
        Link::At(j) => s > 0 && idx_reaches(links, j as int, (s - 1) as nat),
    }
}

spec fn links_ok(links: Seq<Link>) -> bool {
    forall|i: int| 0 <= i < links.len() ==> match #[trigger] links[i] {
        Link::At(j) => j < links.len(),
        _ => true,
    }
}

spec fn done_ok(links: Seq<Link>, locals: Seq<Mat4>, slots: Seq<Slot>, i: int) -> bool {
    let s = slots[i];
    &&& s.depth <= MAX_PARENT_DEPTH
    &&& match links[i] {
        Link::Root => s.kept && s.world == locals[i] && s.depth == 0,
        Link::Missing => !s.kept && s.world == locals[i] && s.depth == 0,
        Link::At(j) => if s.kept {
            &&& slots[j as int].status == DONE
            &&& s.depth == slots[j as int].depth + 1
            &&& s.world == mat_product(slots[j as int].world, locals[i])
        } else {
            &&& s.world == locals[i]
            &&& s.depth == 0
            &&& ((slots[j as int].status == DONE && slots[j as int].depth >= MAX_PARENT_DEPTH)
                || exists|c: nat| anc(links, j as int, c) == Some(i))
        },
    }
}

spec fn walk_inv(links: Seq<Link>, locals: Seq<Mat4>, slots: Seq<Slot>) -> bool {
    &&& links_ok(links)
    &&& locals.len() == links.len()
    &&& slots.len() == links.len()
    &&& forall|i: int| 0 <= i < slots.len() ==> (#[trigger] slots[i]).status <= DONE
    &&& forall|i: int| 0 <= i < slots.len() && (#[trigger] slots[i]).status == DONE
        ==> done_ok(links, locals, slots, i)
}

/// What a recorded cause says of position `i`.
spec fn cause_ok(links: Seq<Link>, slots: Seq<Slot>, i: int, cause: DetachCause) -> bool {
    match cause {
        DetachCause::MissingParent => links[i] is Missing,
        DetachCause::Cycle => slots[i].cycle && match links[i] {
            Link::At(j) => exists|c: nat| anc(links, j as int, c) == Some(i),
            _ => false,
        },
        DetachCause::TooDeep => match links[i] {
            Link::At(j) => slots[j as int].status == DONE && slots[j as int].depth >= MAX_PARENT_DEPTH,
            _ => false,
        },
    }
}

/// The parent of `j` is resolved, or waits above `j` on the stack.
spec fn parent_pending(links: Seq<Link>, slots: Seq<Slot>, stack: Seq<usize>, j: int) -> bool {
    match links[j] {
        Link::At(q) => slots[q as int].status == DONE
            || exists|a: int, b: int| 0 <= a < b < stack.len() && stack[a] as int == j && stack[b] == q,
        _ => false,
    }
}

/// An entity detached for a cycle has, unless it is its own parent, a
/// parent that is not detached for a cycle: when that parent is resolved,
/// its own parent is already resolved.
spec fn cycle_ok(links: Seq<Link>, slots: Seq<Slot>, stack: Seq<usize>) -> bool {
    forall|i: int| 0 <= i < slots.len() && (#[trigger] slots[i]).status == DONE && slots[i].cycle ==> match links[i] {
        Link::At(j) => j as int == i || (slots[j as int].status == DONE && !slots[j as int].cycle)
            || (slots[j as int].status == ACTIVE && parent_pending(links, slots, stack, j as int)),
        _ => false,
    }
}

spec fn log_ok(links: Seq<Link>, slots: Seq<Slot>, log: Seq<(usize, DetachCause)>) -> bool {
    &&& forall|t: int| 0 <= t < log.len() ==> {
        let i = (#[trigger] log[t]).0 as int;
        &&& 0 <= i < slots.len()
        &&& slots[i].status == DONE
        &&& !slots[i].kept
        &&& cause_ok(links, slots, i, log[t].1)
    }
    &&& forall|i: int| 0 <= i < slots.len() && (#[trigger] slots[i]).status == DONE && !slots[i].kept
        ==> exists|t: int| 0 <= t < log.len() && log[t].0 == i
}

spec fn on_stack(stack: Seq<usize>, i: int) -> bool {
    exists|t: int| 0 <= t < stack.len() && stack[t] as int == i
}

spec fn unvisited(slots: Seq<Slot>) -> nat
    decreases slots.len(),
{
    if slots.len() == 0 {
        0
    } else {
        unvisited(slots.drop_last()) + if slots.last().status == UNVISITED { 1nat } else { 0nat }
    }
}

proof fn lemma_unvisited_update(slots: Seq<Slot>, m: int, v: Slot)
    requires
        0 <= m < slots.len(),
    ensures
        unvisited(slots.update(m, v)) + (if slots[m].status == UNVISITED { 1nat } else { 0nat })
            == unvisited(slots) + (if v.status == UNVISITED { 1nat } else { 0nat }),
    decreases slots.len(),
{
    let u = slots.update(m, v);
    if m == slots.len() - 1 {
        assert(u.drop_last() =~= slots.drop_last());
    } else {
        assert(u.drop_last() =~= slots.drop_last().update(m, v));
        lemma_unvisited_update(slots.drop_last(), m, v);
    }
}

proof fn lemma_anc_step(links: Seq<Link>, i: int, c: nat, y: int, z: usize)
    requires
        anc(links, i, c) == Some(y),
        0 <= y < links.len(),
        links[y] == Link::At(z),
    ensures
        anc(links, i, c + 1) == Some(z as int),
    decreases c,
{
    if c == 0 {
        assert(anc(links, z as int, 0) == Some(z as int));
        assert(anc(links, i, 1) == anc(links, z as int, 0));
    } else {
        match links[i] {
            Link::At(j) => {
                lemma_anc_step(links, j as int, (c - 1) as nat, y, z);
                assert(anc(links, i, c + 1) == anc(links, j as int, c));
            },
            _ => {},
        }
    }
}

/// Following `c >= 1` links from a position that reaches a root cannot come
/// back to it.
proof fn lemma_reaches_no_loop(links: Seq<Link>, i: int, s: nat, c: nat)
    requires
        idx_reaches(links, i, s),
        c >= 1,
    ensures
        anc(links, i, c) != Some(i),
    decreases s,
{
    if anc(links, i, c) == Some(i) {
        lemma_reaches_anc(links, i, s, c);
        lemma_reaches_no_loop(links, i, (s - c) as nat, c);
    }
}

proof fn lemma_reaches_anc(links: Seq<Link>, i: int, s: nat, c: nat)
    requires
        idx_reaches(links, i, s),
        anc(links, i, c) is Some,
    ensures
        c <= s,
        idx_reaches(links, anc(links, i, c)->0, (s - c) as nat),
    decreases c,
{
    if c > 0 {
        match links[i] {
            Link::At(j) => lemma_reaches_anc(links, j as int, (s - 1) as nat, (c - 1) as nat),
            _ => {},
        }
    }
}

/// Once every position is done, a position that reaches a root within `s`
/// links keeps its link and has depth at most `s`.
proof fn lemma_kept(links: Seq<Link>, locals: Seq<Mat4>, slots: Seq<Slot>, i: int, s: nat)
    requires
        walk_inv(links, locals, slots),
        forall|k: int| 0 <= k < slots.len() ==> (#[trigger] slots[k]).status == DONE,
        idx_reaches(links, i, s),
        s <= MAX_PARENT_DEPTH,
    ensures
        slots[i].kept,
        slots[i].depth <= s,
    decreases s,
{
    assert(slots[i].status == DONE);
    match links[i] {
        Link::At(j) => {
            lemma_kept(links, locals, slots, j as int, (s - 1) as nat);
            if !slots[i].kept {
                if !(slots[j as int].status == DONE && slots[j as int].depth >= MAX_PARENT_DEPTH) {
                    let c = choose|c: nat| anc(links, j as int, c) == Some(i);
                    lemma_anc_step(links, j as int, c, i, j);
                    lemma_reaches_no_loop(links, j as int, (s - 1) as nat, c + 1);
                }
            }
        },
        _ => {},
    }
}

/// Marks `m` (not yet visited) as being resolved.
proof fn lemma_activate(links: Seq<Link>, locals: Seq<Mat4>, slots: Seq<Slot>, m: int)
    requires
        walk_inv(links, locals, slots),
        0 <= m < slots.len(),
        slots[m].status == UNVISITED,
    ensures
        walk_inv(links, locals, slots.update(m, Slot { status: ACTIVE, ..slots[m] })),
{
    let u = slots.update(m, Slot { status: ACTIVE, ..slots[m] });
    assert forall|i: int| 0 <= i < u.len() && (#[trigger] u[i]).status == DONE
        implies done_ok(links, locals, u, i) by {
        assert(slots[i].status == DONE);
        assert(done_ok(links, locals, slots, i));
    }
}

/// Records the result for `m`, which was not done before.
proof fn lemma_finish(links: Seq<Link>, locals: Seq<Mat4>, slots: Seq<Slot>, m: int, v: Slot)
    requires
        walk_inv(links, locals, slots),
        0 <= m < slots.len(),
        slots[m].status != DONE,
        v.status == DONE,
        done_ok(links, locals, slots.update(m, v), m),
    ensures
        walk_inv(links, locals, slots.update(m, v)),
{
    let u = slots.update(m, v);
    assert forall|i: int| 0 <= i < u.len() && (#[trigger] u[i]).status == DONE
        implies done_ok(links, locals, u, i) by {
        if i != m {
            assert(slots[i].status == DONE);
            assert(done_ok(links, locals, slots, i));
            match links[i] {
                Link::At(j) => {
                    if slots[i].kept || (slots[j as int].status == DONE) {
                        assert(j as int != m);
                    }
                },
                _ => {},
            }
        }
    }
}

/// Resolves `start` and every ancestor of it that is not resolved yet,
/// with an explicit stack in place of recursion.
#[verifier::rlimit(100)]
fn visit(
    links: &Vec<Link>,
    locals: &Vec<Mat4>,
    slots: &mut Vec<Slot>,
    log: &mut Vec<(usize, DetachCause)>,
    start: usize,
)
    requires
        walk_inv(links@, locals@, old(slots)@),
        start < links.len(),
        old(slots)@[start as int].status == UNVISITED,
        forall|i: int| 0 <= i < old(slots)@.len() ==> (#[trigger] old(slots)@[i]).status != ACTIVE,
        log_ok(links@, old(slots)@, old(log)@),
        cycle_ok(links@, old(slots)@, Seq::empty()),
    ensures
        cycle_ok(links@, final(slots)@, Seq::empty()),
        walk_inv(links@, locals@, final(slots)@),
        forall|i: int| 0 <= i < final(slots)@.len() ==> (#[trigger] final(slots)@[i]).status != ACTIVE,
        final(slots)@[start as int].status == DONE,
        forall|i: int| 0 <= i < final(slots)@.len() && (#[trigger] old(slots)@[i]).status == DONE
            ==> final(slots)@[i].status == DONE,
        log_ok(links@, final(slots)@, final(log)@),
{
    let ghost slots0 = slots@;
    let mut stack: Vec<usize> = Vec::new();
    let s0 = slots[start];
    proof {
        lemma_activate(links@, locals@, slots@, start as int);
        lemma_unvisited_update(slots@, start as int, Slot { status: ACTIVE, ..s0 });
    }
    slots.set(start, Slot { status: ACTIVE, ..s0 });
    stack.push(start);
    proof {
        assert(anc(links@, start as int, 0) == Some(start as int));
        assert forall|i: int| 0 <= i < slots@.len() && (#[trigger] slots@[i]).status == ACTIVE
            implies on_stack(stack@, i) by {
            assert(i == start);
            assert(stack@[0] == start);
        }
        assert forall|i: int| 0 <= i < slots@.len() && (#[trigger] slots@[i]).status == DONE && slots@[i].cycle
            implies match links@[i] {
                Link::At(j) => j as int == i || (slots@[j as int].status == DONE && !slots@[j as int].cycle)
                    || (slots@[j as int].status == ACTIVE && parent_pending(links@, slots@, stack@, j as int)),
                _ => false,
            } by {
            assert(slots0[i].status == DONE && slots0[i].cycle);
            match links@[i] {
                Link::At(j) => {
                    assert(slots0[j as int].status != ACTIVE);
                },
                _ => {},
            }
        }
    }
    while stack.len() > 0
        invariant
            walk_inv(links@, locals@, slots@),
            slots@.len() == slots0.len(),
            forall|t: int| 0 <= t < stack@.len() ==> (#[trigger] stack@[t]) < slots@.len()
                && slots@[stack@[t] as int].status == ACTIVE,
            forall|i: int| 0 <= i < slots@.len() && (#[trigger] slots@[i]).status == ACTIVE
                ==> on_stack(stack@, i),
            forall|a: int, b: int| 0 <= a <= b < stack@.len()
                ==> anc(links@, #[trigger] stack@[a] as int, (b - a) as nat) == Some(#[trigger] stack@[b] as int),
            forall|a: int, b: int| 0 <= a < b < stack@.len() ==> stack@[a] != stack@[b],
            stack@.len() > 0 ==> stack@[0] == start,
            slots@[start as int].status != UNVISITED,
            stack@.len() == 0 ==> slots@[start as int].status == DONE,
            forall|i: int| 0 <= i < slots@.len() && (#[trigger] slots0[i]).status == DONE
                ==> slots@[i].status == DONE,
            log_ok(links@, slots@, log@),
            cycle_ok(links@, slots@, stack@),
        decreases 2 * unvisited(slots@) + stack@.len(),
    {
        let top = stack[stack.len() - 1];
        let ghost last = stack@.len() - 1;
        let local = locals[top];
        let cur = slots[top];
        let mut next: Option<Slot> = None;
        let mut cause: Option<DetachCause> = None;
        match links[top] {
            Link::Root => {
                next = Some(Slot { status: DONE, world: local, kept: true, depth: 0, cycle: false });
            },
            Link::Missing => {
                next = Some(Slot { status: DONE, world: local, kept: false, depth: 0, cycle: false });
                cause = Some(DetachCause::MissingParent);
            },
            Link::At(j) => {
                let p = slots[j];
                if p.status == DONE {
                    if p.depth < MAX_PARENT_DEPTH {
                        let w = mul_mat4(&p.world, &local);
                        next = Some(Slot { status: DONE, world: w, kept: true, depth: p.depth + 1, cycle: false });
                    } else {
                        next = Some(Slot { status: DONE, world: local, kept: false, depth: 0, cycle: false });
                        cause = Some(DetachCause::TooDeep);
                    }
                } else if p.status == ACTIVE {
                    proof {
                        assert(slots@[j as int].status == ACTIVE);
                        assert(on_stack(stack@, j as int));
                        let a = choose|a: int| 0 <= a < stack@.len() && stack@[a] as int == j as int;
                        assert(anc(links@, stack@[a] as int, (last - a) as nat) == Some(stack@[last] as int));
                        assert(anc(links@, j as int, (last - a) as nat) == Some(top as int));
                    }
                    next = Some(Slot { status: DONE, world: local, kept: false, depth: 0, cycle: true });
                    cause = Some(DetachCause::Cycle);
                } else {
                    proof {
                        lemma_activate(links@, locals@, slots@, j as int);
                        lemma_unvisited_update(slots@, j as int, Slot { status: ACTIVE, ..p });
                        assert forall|a: int| 0 <= a <= last
                            implies anc(links@, stack@[a] as int, (last + 1 - a) as nat) == Some(j as int) by {
                            lemma_anc_step(links@, stack@[a] as int, (last - a) as nat, top as int, j);
                        }
                    }
                    let ghost before = stack@;
                    let ghost pre_slots = slots@;
                    slots.set(j, Slot { status: ACTIVE, ..p });
                    stack.push(j);
                    proof {
                        assert(j != start);
                        assert forall|i: int| 0 <= i < slots@.len() && (#[trigger] slots@[i]).status == DONE && slots@[i].cycle
                            implies match links@[i] {
                                Link::At(j2) => j2 as int == i || (slots@[j2 as int].status == DONE && !slots@[j2 as int].cycle)
                                    || (slots@[j2 as int].status == ACTIVE && parent_pending(links@, slots@, stack@, j2 as int)),
                                _ => false,
                            } by {
                            assert(pre_slots[i].status == DONE && pre_slots[i].cycle);
                            match links@[i] {
                                Link::At(j2) => {
                                    if j2 as int != i && !(pre_slots[j2 as int].status == DONE && !pre_slots[j2 as int].cycle) {
                                        assert(pre_slots[j2 as int].status == ACTIVE);
                                        assert(parent_pending(links@, pre_slots, before, j2 as int));
                                        match links@[j2 as int] {
                                            Link::At(q) => {
                                                if pre_slots[q as int].status != DONE {
                                                    let (a, b) = choose|a: int, b: int| 0 <= a < b < before.len()
                                                        && before[a] as int == j2 as int && before[b] == q;
                                                    assert(stack@[a] == before[a] && stack@[b] == before[b]);
                                                }
                                            },
                                            _ => {},
                                        }
                                    }
                                },
                                _ => {},
                            }
                        }
                        assert forall|t: int| 0 <= t < log@.len() implies {
                            let i = (#[trigger] log@[t]).0 as int;
                            &&& 0 <= i < slots@.len()
                            &&& slots@[i].status == DONE
                            &&& !slots@[i].kept
                            &&& cause_ok(links@, slots@, i, log@[t].1)
                        } by {
                            let i = log@[t].0 as int;
                            assert(pre_slots[i].status == DONE);
                            assert(cause_ok(links@, pre_slots, i, log@[t].1));
                            match links@[i] {
                                Link::At(j2) => {
                                    if pre_slots[j2 as int].status == DONE {
                                        assert(j2 != j);
                                    }
                                },
                                _ => {},
                            }
                        }
                        assert forall|a: int, b: int| 0 <= a < b < stack@.len() implies stack@[a] != stack@[b] by {
                            if b == last + 1 {
                                assert(slots@[before[a] as int].status == ACTIVE);
                            } else {
                                assert(stack@[a] == before[a] && stack@[b] == before[b]);
                            }
                        }
                        assert forall|i: int| 0 <= i < slots@.len() && (#[trigger] slots@[i]).status == ACTIVE
                            implies on_stack(stack@, i) by {
                            if i != j {
                                let t = choose|t: int| 0 <= t < before.len() && before[t] as int == i;
                                assert(stack@[t] as int == i);
                            } else {
                                assert(stack@[last + 1] == j);
                            }
                        }
                        assert forall|a: int, b: int| 0 <= a <= b < stack@.len()
                            implies anc(links@, #[trigger] stack@[a] as int, (b - a) as nat) == Some(#[trigger] stack@[b] as int) by {
                            if b <= last {
                                assert(stack@[a] == before[a] && stack@[b] == before[b]);
                            } else if a <= last {
                                assert(stack@[a] == before[a]);
                            } else {
                                assert(anc(links@, j as int, 0) == Some(j as int));
                            }
                        }
                    }
                }
            },
        }
        match next {
            Some(v) => {
                proof {
                    let u = slots@.update(top as int, v);
                    assert(done_ok(links@, locals@, u, top as int));
                    lemma_finish(links@, locals@, slots@, top as int, v);
                    lemma_unvisited_update(slots@, top as int, v);
                }
                let ghost before = stack@;
                let ghost log0 = log@;
                let ghost pre_slots = slots@;
                proof {
                    match cause {
                        Some(c) => {
                            assert(cause_ok(links@, pre_slots.update(top as int, v), top as int, c));
                        },
                        None => {},
                    }
                }
                slots.set(top, v);
                stack.pop();
                match cause {
                    Some(c) => {
                        log.push((top, c));
                    },
                    None => {},
                }
                proof {
                    assert(stack@ =~= before.drop_last());
                    assert(before[last] == top);
                    assert(slots@[top as int].status == DONE);
                    assert forall|i: int| 0 <= i < slots@.len() && (#[trigger] slots@[i]).status == ACTIVE
                        implies on_stack(stack@, i) by {
                        assert(i != top as int);
                        let t = choose|t: int| 0 <= t < before.len() && before[t] as int == i;
                        assert(t != last);
                        assert(stack@[t] as int == i);
                    }
                    assert forall|t: int| 0 <= t < stack@.len()
                        implies (#[trigger] stack@[t]) < slots@.len() && slots@[stack@[t] as int].status == ACTIVE by {
                        assert(stack@[t] == before[t]);
                        assert(before[t] != before[last]);
                    }
                    if stack@.len() == 0 {
                        assert(top == start);
                    }
                    assert forall|i: int| 0 <= i < slots@.len() && (#[trigger] slots@[i]).status == DONE && slots@[i].cycle
                        implies match links@[i] {
                            Link::At(j2) => j2 as int == i || (slots@[j2 as int].status == DONE && !slots@[j2 as int].cycle)
                                || (slots@[j2 as int].status == ACTIVE && parent_pending(links@, slots@, stack@, j2 as int)),
                            _ => false,
                        } by {
                        if i == top as int {
                            match links@[i] {
                                Link::At(j2) => {
                                    if j2 as int != i {
                                        assert(pre_slots[j2 as int].status == ACTIVE);
                                        assert(on_stack(before, j2 as int));
                                        let a = choose|a: int| 0 <= a < before.len() && before[a] as int == j2 as int;
                                        assert(a != last);
                                        assert(anc(links@, before[a] as int, 1) == Some(before[a + 1] as int));
                                        match links@[j2 as int] {
                                            Link::At(x) => {
                                                assert(anc(links@, x as int, 0) == Some(x as int));
                                                assert(x == before[a + 1]);
                                                if a + 1 < last {
                                                    assert(stack@[a] == before[a] && stack@[a + 1] == before[a + 1]);
                                                }
                                            },
                                            _ => {},
                                        }
                                    }
                                },
                                _ => {},
                            }
                        } else {
                            assert(pre_slots[i].status == DONE && pre_slots[i].cycle);
                            match links@[i] {
                                Link::At(j2) => {
                                    if j2 as int != i && !(pre_slots[j2 as int].status == DONE && !pre_slots[j2 as int].cycle) {
                                        assert(pre_slots[j2 as int].status == ACTIVE);
                                        assert(parent_pending(links@, pre_slots, before, j2 as int));
                                        match links@[j2 as int] {
                                            Link::At(q) => {
                                                if j2 == top {
                                                    if pre_slots[q as int].status != DONE {
                                                        let (a, b) = choose|a: int, b: int| 0 <= a < b < before.len()
                                                            && before[a] as int == j2 as int && before[b] == q;
                                                        assert(before[a] == before[last]);
                                                    }
                                                    assert(!slots@[j2 as int].cycle);
                                                } else if pre_slots[q as int].status != DONE {
                                                    let (a, b) = choose|a: int, b: int| 0 <= a < b < before.len()
                                                        && before[a] as int == j2 as int && before[b] == q;
                                                    if b < last {
                                                        assert(stack@[a] == before[a] && stack@[b] == before[b]);
                                                    } else {
                                                        assert(q == top);
                                                    }
                                                }
                                            },
                                            _ => {},
                                        }
                                    }
                                },
                                _ => {},
                            }
                        }
                    }
                    assert forall|t: int| 0 <= t < log@.len() implies {
                        let i = (#[trigger] log@[t]).0 as int;
                        &&& 0 <= i < slots@.len()
                        &&& slots@[i].status == DONE
                        &&& !slots@[i].kept
                        &&& cause_ok(links@, slots@, i, log@[t].1)
                    } by {
                        if t < log0.len() {
                            assert(log@[t] == log0[t]);
                            let i = log0[t].0 as int;
                            assert(pre_slots[i].status == DONE);
                            assert(cause_ok(links@, pre_slots, i, log0[t].1));
                            match links@[i] {
                                Link::At(j2) => {
                                    if pre_slots[j2 as int].status == DONE {
                                        assert(j2 != top);
                                    }
                                },
                                _ => {},
                            }
                        } else {
                            assert(log@[t].0 == top);
                            assert(slots@ == pre_slots.update(top as int, v));
                            assert(cause_ok(links@, pre_slots.update(top as int, v), top as int, log@[t].1));
                            match links@[top as int] {
                                Link::At(j2) => {
                                    if pre_slots[j2 as int].status == DONE {
                                        assert(j2 != top);
                                    }
                                },
                                _ => {},
                            }
                        }
                    }
                    assert forall|i: int| 0 <= i < slots@.len() && (#[trigger] slots@[i]).status == DONE && !slots@[i].kept
                        implies exists|t: int| 0 <= t < log@.len() && log@[t].0 == i by {
                        if i == top {
                            assert(log@[log@.len() - 1].0 == top);
                        } else {
                            let t = choose|t: int| 0 <= t < log0.len() && log0[t].0 == i;
                            assert(log@[t] == log0[t]);
                        }
                    }
                }
            },
            None => {},
        }
    }
}


// ---------------------------------------------------------------------------
// From keys to positions and back.

/// `l` says where, among `keys`, the parent of `t` is.
spec fn link_matches(m: Map<u64, TransformComponent>, keys: Seq<u64>, t: TransformComponent, l: Link) -> bool {
    match l {
        Link::Root => t.parent.is_none(),
        Link::Missing => t.parent.is_some() && !m.contains_key(t.parent.unwrap()@),
        Link::At(j) => t.parent.is_some() && j < keys.len() && keys[j as int] == t.parent.unwrap()@,
    }
}

/// The record written back for position `i`.
spec fn record_of(olds: Seq<TransformComponent>, locals: Seq<Mat4>, slots: Seq<Slot>, i: int) -> TransformComponent {
    TransformComponent {
        local: locals[i],
        world: slots[i].world,
        parent: if slots[i].kept { olds[i].parent } else { None },
        ..olds[i]
    }
}

/// The facts that tie the walk's positions to the scene's keys.
spec fn positions_ok(
    before: Map<u64, TransformComponent>,
    keys: Seq<u64>,
    olds: Seq<TransformComponent>,
    locals: Seq<Mat4>,
    links: Seq<Link>,
) -> bool {
    &&& keys.len() == olds.len()
    &&& keys.len() == locals.len()
    &&& keys.len() == links.len()
    &&& forall|k: u64| #[trigger] before.contains_key(k) <==> keys.contains(k)
    &&& forall|i: int| 0 <= i < keys.len() ==> before[#[trigger] keys[i]] == olds[i]
    &&& forall|i: int| 0 <= i < keys.len() ==> #[trigger] locals[i]
        == trs_matrix(olds[i].scale, olds[i].rotation, olds[i].translation)
    &&& forall|i: int| 0 <= i < keys.len() ==> link_matches(before, keys, olds[i], #[trigger] links[i])
}

proof fn lemma_reaches_to_idx(
    before: Map<u64, TransformComponent>,
    keys: Seq<u64>,
    olds: Seq<TransformComponent>,
    locals: Seq<Mat4>,
    links: Seq<Link>,
    i: int,
    s: nat,
)
    requires
        positions_ok(before, keys, olds, locals, links),
        0 <= i < keys.len(),
        reaches_root(before, keys[i], s),
    ensures
        idx_reaches(links, i, s),
    decreases s,
{
    assert(link_matches(before, keys, olds[i], links[i]));
    assert(before[keys[i]] == olds[i]);
    match links[i] {
        Link::At(j) => {
            let p = olds[i].parent.unwrap();
            assert(keys[j as int] == p@);
            assert(reaches_root(before, p@, (s - 1) as nat));
            lemma_reaches_to_idx(before, keys, olds, locals, links, j as int, (s - 1) as nat);
        },
        Link::Missing => {
            let p = olds[i].parent.unwrap();
            assert(reaches_root(before, p@, (s - 1) as nat));
        },
        Link::Root => {},
    }
}

proof fn lemma_anc_to_ancestor(
    before: Map<u64, TransformComponent>,
    keys: Seq<u64>,
    olds: Seq<TransformComponent>,
    locals: Seq<Mat4>,
    links: Seq<Link>,
    j: int,
    c: nat,
    i: int,
)
    requires
        positions_ok(before, keys, olds, locals, links),
        links_ok(links),
        0 <= j < keys.len(),
        0 <= i < keys.len(),
        anc(links, j, c) == Some(i),
    ensures
        ancestor(before, keys[j], c) == Some(keys[i]),
    decreases c,
{
    if c > 0 {
        assert(link_matches(before, keys, olds[j], links[j]));
        assert(before[keys[j]] == olds[j]);
        match links[j] {
            Link::At(j2) => {
                assert(keys.contains(keys[j]));
                lemma_anc_to_ancestor(before, keys, olds, locals, links, j2 as int, (c - 1) as nat, i);
            },
            _ => {},
        }
    }
}

/// A root reached within `a` links is reached within any `b >= a`.
pub(crate) proof fn lemma_reaches_more(m: Map<u64, TransformComponent>, k: u64, a: nat, b: nat)
    requires
        reaches_root(m, k, a),
        a <= b,
    ensures
        reaches_root(m, k, b),
    decreases a,
{
    match m[k].parent {
        Some(p) => lemma_reaches_more(m, p@, (a - 1) as nat, (b - 1) as nat),
        None => {},
    }
}

/// A chain in `after` with the record of `k` replaced either avoids `k`, and
/// is a chain of `after`, or runs through the new parent of `k`.
proof fn lemma_restore_reach(after: Map<u64, TransformComponent>, k: u64, t: TransformComponent, x: u64, s: nat)
    requires
        t.parent.is_some(),
        after.contains_key(k),
        reaches_root(after.insert(k, t), x, s),
    ensures
        reaches_root(after, x, s) || (s > 0 && reaches_root(after, t.parent.unwrap()@, (s - 1) as nat)),
    decreases s,
{
    let r = after.insert(k, t);
    let pk = t.parent.unwrap()@;
    if x == k {
        lemma_restore_reach(after, k, t, pk, (s - 1) as nat);
        if !reaches_root(after, pk, (s - 1) as nat) {
            lemma_reaches_more(after, pk, (s - 2) as nat, (s - 1) as nat);
        }
    } else {
        assert(r[x] == after[x]);
        match after[x].parent {
            Some(y) => {
                lemma_restore_reach(after, k, t, y@, (s - 1) as nat);
                if !reaches_root(after, y@, (s - 1) as nat) {
                    lemma_reaches_more(after, pk, (s - 2) as nat, (s - 1) as nat);
                }
            },
            None => {},
        }
    }
}

/// A resolved entity reaches a root in no fewer links than its depth.
proof fn lemma_reaches_depth(
    after: Map<u64, TransformComponent>,
    keys: Seq<u64>,
    olds: Seq<TransformComponent>,
    locals: Seq<Mat4>,
    links: Seq<Link>,
    slots: Seq<Slot>,
    i: int,
    s: nat,
)
    requires
        walk_inv(links, locals, slots),
        forall|t: int| 0 <= t < slots.len() ==> (#[trigger] slots[t]).status == DONE,
        keys.len() == links.len(),
        forall|t: int| 0 <= t < keys.len() ==> link_matches(after, keys, olds[t], #[trigger] links[t])
            || links[t] is Missing,
        forall|t: int| 0 <= t < keys.len() ==> after.contains_key(#[trigger] keys[t])
            && after[keys[t]] == record_of(olds, locals, slots, t),
        0 <= i < keys.len(),
        reaches_root(after, keys[i], s),
    ensures
        slots[i].depth <= s,
    decreases s,
{
    assert(slots[i].status == DONE);
    assert(after[keys[i]] == record_of(olds, locals, slots, i));
    match links[i] {
        Link::At(j) => {
            if slots[i].kept {
                assert(link_matches(after, keys, olds[i], links[i]));
                lemma_reaches_depth(after, keys, olds, locals, links, slots, j as int, (s - 1) as nat);
            }
        },
        _ => {},
    }
}

proof fn lemma_depth_reaches(
    after: Map<u64, TransformComponent>,
    keys: Seq<u64>,
    olds: Seq<TransformComponent>,
    locals: Seq<Mat4>,
    links: Seq<Link>,
    slots: Seq<Slot>,
    i: int,
)
    requires
        walk_inv(links, locals, slots),
        forall|t: int| 0 <= t < slots.len() ==> (#[trigger] slots[t]).status == DONE,
        keys.len() == links.len(),
        forall|t: int| 0 <= t < keys.len() ==> link_matches(after, keys, olds[t], #[trigger] links[t])
            || links[t] is Missing,
        forall|t: int| 0 <= t < keys.len() ==> after.contains_key(#[trigger] keys[t])
            && after[keys[t]] == record_of(olds, locals, slots, t),
        0 <= i < keys.len(),
    ensures
        reaches_root(after, keys[i], slots[i].depth as nat),
    decreases slots[i].depth,
{
    assert(slots[i].status == DONE);
    assert(after[keys[i]] == record_of(olds, locals, slots, i));
    match links[i] {
        Link::At(j) => {
            if slots[i].kept {
                assert(link_matches(after, keys, olds[i], links[i]));
                lemma_depth_reaches(after, keys, olds, locals, links, slots, j as int);
            }
        },
        _ => {},
    }
}

/// Computes every local matrix, then every world matrix along the parent
/// chains, detaching entities whose parent is missing, whose chain loops, or
/// whose chain is deeper than `MAX_PARENT_DEPTH`. Returns one record per
/// detached entity.
pub fn resolve_transforms(scene: &mut Scene) -> (report: Vec<Detachment>)
    requires
        old(scene).wf(),
    ensures
        final(scene).wf(),
        final(scene).keys() == old(scene).keys(),
        resolution(old(scene).tf(), final(scene).tf()),
        report_matches(old(scene).tf(), final(scene).tf(), report@),
        final(scene).meshes() == old(scene).meshes(),
        final(scene).cameras() == old(scene).cameras(),
        final(scene).players() == old(scene).players(),
{
    let ghost before = scene.tf();
    let ghost keys = scene.keys();
    let n = scene.transforms_sorted.len();

    let mut pos: HashMap<u64, usize> = HashMap::new();
    let mut i: usize = 0;
    while i < n
        invariant
            scene.wf(),
            scene.tf() == before,
            scene.keys() == keys,
            n == keys.len(),
            i <= n,
            forall|k: u64| #[trigger] pos@.contains_key(k) ==> pos@[k] < i && keys[pos@[k] as int] == k,
            forall|t: int| 0 <= t < i ==> pos@.contains_key(#[trigger] keys[t]),
        decreases n - i,
    {
        pos.insert(scene.transforms_sorted[i], i);
        i += 1;
    }

    let mut olds: Vec<TransformComponent> = Vec::new();
    let mut locals: Vec<Mat4> = Vec::new();
    let mut links: Vec<Link> = Vec::new();
    let mut i: usize = 0;
    while i < n
        invariant
            scene.wf(),
            scene.tf() == before,
            scene.keys() == keys,
            n == keys.len(),
            i <= n,
            forall|k: u64| #[trigger] pos@.contains_key(k) ==> pos@[k] < n && keys[pos@[k] as int] == k,
            forall|t: int| 0 <= t < n ==> pos@.contains_key(#[trigger] keys[t]),
            olds@.len() == i,
            locals@.len() == i,
            links@.len() == i,
            forall|t: int| 0 <= t < i ==> before[#[trigger] keys[t]] == olds@[t],
            forall|t: int| 0 <= t < i ==> #[trigger] locals@[t]
                == trs_matrix(olds@[t].scale, olds@[t].rotation, olds@[t].translation),
            forall|t: int| 0 <= t < i ==> link_matches(before, keys, olds@[t], #[trigger] links@[t]),
        decreases n - i,
    {
        let k = scene.transforms_sorted[i];
        proof {
            assert(is_live_key_at(keys, i as int));
            lemma_live_key_normalized(k);
            assert(keys.contains(k));
        }
        let t = match get_transform(&scene.transforms, k) {
            Some(t) => t,
            None => TransformComponent::default(),
        };
        let local = compose_trs(t.scale, t.rotation, t.translation);
        let link = match t.parent {
            None => Link::Root,
            Some(p) => match pos.get(&p.stored_bits()) {
                Some(j) => Link::At(*j),
                None => {
                    proof {
                        if before.contains_key(p@) {
                            assert(keys.contains(p@));
                            let t2 = choose|t2: int| 0 <= t2 < keys.len() && keys[t2] == p@;
                            assert(pos@.contains_key(keys[t2]));
                        }
                    }
                    Link::Missing
                },
            },
        };
        olds.push(t);
        locals.push(local);
        links.push(link);
        i += 1;
    }
    proof {
        assert forall|t: int| 0 <= t < links@.len() implies match #[trigger] links@[t] {
            Link::At(j) => j < links@.len(),
            _ => true,
        } by {
            assert(link_matches(before, keys, olds@[t], links@[t]));
        }
        assert(positions_ok(before, keys, olds@, locals@, links@));
    }

    let mut slots: Vec<Slot> = Vec::new();
    let mut i: usize = 0;
    while i < n
        invariant
            i <= n,
            locals@.len() == n,
            slots@.len() == i,
            forall|t: int| 0 <= t < i ==> (#[trigger] slots@[t]).status == UNVISITED,
        decreases n - i,
    {
        slots.push(Slot { status: UNVISITED, world: locals[i], kept: false, depth: 0, cycle: false });
        i += 1;
    }

    let mut log: Vec<(usize, DetachCause)> = Vec::new();
    let mut start: usize = 0;
    while start < n
        invariant
            links_ok(links@),
            positions_ok(before, keys, olds@, locals@, links@),
            n == keys.len(),
            start <= n,
            walk_inv(links@, locals@, slots@),
            forall|t: int| 0 <= t < slots@.len() ==> (#[trigger] slots@[t]).status != ACTIVE,
            forall|t: int| 0 <= t < start ==> (#[trigger] slots@[t]).status == DONE,
            log_ok(links@, slots@, log@),
            cycle_ok(links@, slots@, Seq::empty()),
        decreases n - start,
    {
        if slots[start].status == UNVISITED {
            let ghost s0 = slots@;
            visit(&links, &locals, &mut slots, &mut log, start);
            proof {
                assert forall|t: int| 0 <= t < start implies (#[trigger] slots@[t]).status == DONE by {
                    assert(s0[t].status == DONE);
                }
            }
        }
        start += 1;
    }

    let ghost tables = (scene.meshes(), scene.cameras(), scene.players());
    let mut i: usize = 0;
    while i < n
        invariant
            scene.wf(),
            scene.keys() == keys,
            n == keys.len(),
            i <= n,
            positions_ok(before, keys, olds@, locals@, links@),
            slots@.len() == n,
            scene.tf().dom() == before.dom(),
            forall|t: int| 0 <= t < i ==> scene.tf()[#[trigger] keys[t]] == record_of(olds@, locals@, slots@, t),
            forall|t: int| i <= t < n ==> scene.tf()[#[trigger] keys[t]] == before[keys[t]],
            (scene.meshes(), scene.cameras(), scene.players()) == tables,
        decreases n - i,
    {
        let t = olds[i];
        let sl = slots[i];
        let rec = TransformComponent {
            local: locals[i],
            world: sl.world,
            parent: if sl.kept { t.parent } else { None },
            ..t
        };
        proof {
            assert(is_live_key_at(keys, i as int));
            lemma_live_key_normalized(keys[i as int]);
            assert(keys.contains(keys[i as int]));
        }
        let k = scene.transforms_sorted[i];
        let ghost pre = scene.tf();
        set_transform(&mut scene.transforms, k, rec);
        proof {
            assert(scene.tf().dom() =~= pre.dom());
            assert forall|t: int| 0 <= t < i + 1 implies scene.tf()[#[trigger] keys[t]] == record_of(olds@, locals@, slots@, t) by {
                if t < i {
                    assert(keys[t] != keys[i as int]);
                }
            }
            assert forall|t: int| i + 1 <= t < n implies scene.tf()[#[trigger] keys[t]] == before[keys[t]] by {
                assert(keys[t] != keys[i as int]);
            }
        }
        i += 1;
    }

    let mut report: Vec<Detachment> = Vec::new();
    let mut t: usize = 0;
    while t < log.len()
        invariant
            scene.keys() == keys,
            n == keys.len(),
            t <= log@.len(),
            slots@.len() == n,
            log_ok(links@, slots@, log@),
            report@.len() == t,
            forall|u: int| 0 <= u < t ==> (#[trigger] report@[u]).entity.bits == keys[log@[u].0 as int]
                && report@[u].cause == log@[u].1,
        decreases log@.len() - t,
    {
        let (p, c) = log[t];
        proof {
            assert(0 <= p < slots@.len());
        }
        report.push(Detachment { entity: EntityKey { bits: scene.transforms_sorted[p] }, cause: c });
        t += 1;
    }

    proof {
        let after = scene.tf();
        assert forall|u: int| 0 <= u < n implies after.contains_key(#[trigger] keys[u])
            && after[keys[u]] == record_of(olds@, locals@, slots@, u) by {
            assert(keys.contains(keys[u]));
        }
        assert forall|u: int| 0 <= u < n implies (#[trigger] slots@[u]).status == DONE by {}
        // every key is at some position
        assert forall|k: u64| #[trigger] before.contains_key(k) implies
            exists|u: int| 0 <= u < n && keys[u] == k by {
            assert(keys.contains(k));
        }
        assert forall|u: int| 0 <= u < n implies link_matches(after, keys, olds@[u], #[trigger] links@[u])
            || links@[u] is Missing by {
            assert(link_matches(before, keys, olds@[u], links@[u]));
            match links@[u] {
                Link::At(j) => { assert(keys.contains(keys[j as int])); },
                _ => {},
            }
        }
        assert forall|k: u64| #[trigger] before.contains_key(k) implies resolved_record(before[k], after[k]) by {
            let u = choose|u: int| 0 <= u < n && keys[u] == k;
        }
        assert forall|k: u64| #[trigger] reaches_root(before, k, MAX_PARENT_DEPTH as nat)
            implies after[k].parent == before[k].parent by {
            let u = choose|u: int| 0 <= u < n && keys[u] == k;
            lemma_reaches_to_idx(before, keys, olds@, locals@, links@, u, MAX_PARENT_DEPTH as nat);
            lemma_kept(links@, locals@, slots@, u, MAX_PARENT_DEPTH as nat);
        }
        assert forall|k: u64| #[trigger] after.contains_key(k) implies match after[k].parent {
            None => after[k].world == after[k].local,
            Some(p) => after.contains_key(p@) && after[k].world == mat_product(after[p@].world, after[k].local),
        } by {
            let u = choose|u: int| 0 <= u < n && keys[u] == k;
            assert(slots@[u].status == DONE);
            assert(done_ok(links@, locals@, slots@, u));
            assert(link_matches(before, keys, olds@[u], links@[u]));
            match links@[u] {
                Link::At(j) => {
                    assert(after[keys[j as int]] == record_of(olds@, locals@, slots@, j as int));
                },
                _ => {},
            }
        }
        assert forall|k: u64| #[trigger] after.contains_key(k) implies reaches_root(after, k, MAX_PARENT_DEPTH as nat) by {
            let u = choose|u: int| 0 <= u < n && keys[u] == k;
            assert(slots@[u].status == DONE);
            lemma_depth_reaches(after, keys, olds@, locals@, links@, slots@, u);
            lemma_reaches_more(after, k, slots@[u].depth as nat, MAX_PARENT_DEPTH as nat);
        }
        assert(resolution(before, after));
        assert forall|u: int| 0 <= u < report@.len() implies detached(before, after, #[trigger] report@[u].entity@) by {
            let p = log@[u].0 as int;
            assert(is_live_key_at(keys, p));
            lemma_live_key_normalized(keys[p]);
            assert(done_ok(links@, locals@, slots@, p));
            assert(link_matches(before, keys, olds@[p], links@[p]));
        }
        assert forall|u: int| 0 <= u < report@.len() implies {
            let k = (#[trigger] report@[u]).entity@;
            let pk = before[k].parent.unwrap()@;
            match report@[u].cause {
                DetachCause::MissingParent => !before.contains_key(pk),
                DetachCause::Cycle => before.contains_key(pk) && exists|n: nat| ancestor(before, pk, n) == Some(k),
                DetachCause::TooDeep => before.contains_key(pk)
                    && !reaches_root(before, pk, (MAX_PARENT_DEPTH - 1) as nat),
            }
        } by {
            let p = log@[u].0 as int;
            assert(is_live_key_at(keys, p));
            lemma_live_key_normalized(keys[p]);
            assert(report@[u].entity@ == keys[p]);
            assert(link_matches(before, keys, olds@[p], links@[p]));
            assert(cause_ok(links@, slots@, p, log@[u].1));
            match links@[p] {
                Link::At(j) => {
                    assert(keys.contains(keys[j as int]));
                    match log@[u].1 {
                        DetachCause::Cycle => {
                            let c = choose|c: nat| anc(links@, j as int, c) == Some(p);
                            lemma_anc_to_ancestor(before, keys, olds@, locals@, links@, j as int, c, p);
                        },
                        DetachCause::TooDeep => {
                            if reaches_root(before, keys[j as int], (MAX_PARENT_DEPTH - 1) as nat) {
                                lemma_reaches_to_idx(before, keys, olds@, locals@, links@, j as int, (MAX_PARENT_DEPTH - 1) as nat);
                                lemma_kept(links@, locals@, slots@, j as int, (MAX_PARENT_DEPTH - 1) as nat);
                            }
                        },
                        _ => {},
                    }
                },
                _ => {},
            }
        }
        assert forall|u: int| 0 <= u < report@.len() && (#[trigger] report@[u]).cause != DetachCause::Cycle
            implies !reaches_root(restored(before, after, report@[u].entity@), report@[u].entity@, MAX_PARENT_DEPTH as nat) by {
            let p = log@[u].0 as int;
            let k = keys[p];
            assert(is_live_key_at(keys, p));
            lemma_live_key_normalized(keys[p]);
            assert(report@[u].entity@ == k);
            assert(link_matches(before, keys, olds@[p], links@[p]));
            assert(cause_ok(links@, slots@, p, log@[u].1));
            assert(keys.contains(k));
            let t = TransformComponent { parent: before[k].parent, ..after[k] };
            let rm = restored(before, after, k);
            if reaches_root(rm, k, MAX_PARENT_DEPTH as nat) {
                assert(rm[k] == t);
                match links@[p] {
                    Link::At(j) => {
                        lemma_restore_reach(after, k, t, k, MAX_PARENT_DEPTH as nat);
                        assert(reaches_root(rm, t.parent.unwrap()@, (MAX_PARENT_DEPTH - 1) as nat));
                        lemma_restore_reach(after, k, t, t.parent.unwrap()@, (MAX_PARENT_DEPTH - 1) as nat);
                        if !reaches_root(after, keys[j as int], (MAX_PARENT_DEPTH - 1) as nat) {
                            lemma_reaches_more(after, keys[j as int], (MAX_PARENT_DEPTH - 2) as nat, (MAX_PARENT_DEPTH - 1) as nat);
                        }
                        lemma_reaches_depth(after, keys, olds@, locals@, links@, slots@, j as int, (MAX_PARENT_DEPTH - 1) as nat);
                    },
                    _ => {
                        assert(!after.contains_key(t.parent.unwrap()@));
                        assert(reaches_root(rm, t.parent.unwrap()@, (MAX_PARENT_DEPTH - 1) as nat));
                    },
                }
            }
        }
        assert forall|t1: int, t2: int|
            0 <= t1 < report@.len() && 0 <= t2 < report@.len()
                && (#[trigger] report@[t1]).cause == DetachCause::Cycle && (#[trigger] report@[t2]).cause == DetachCause::Cycle
                && before[report@[t1].entity@].parent.unwrap()@ == report@[t2].entity@
            implies report@[t2].entity@ == report@[t1].entity@ by {
            let p1 = log@[t1].0 as int;
            let p2 = log@[t2].0 as int;
            assert(is_live_key_at(keys, p1));
            assert(is_live_key_at(keys, p2));
            lemma_live_key_normalized(keys[p1]);
            lemma_live_key_normalized(keys[p2]);
            assert(cause_ok(links@, slots@, p1, log@[t1].1));
            assert(cause_ok(links@, slots@, p2, log@[t2].1));
            assert(link_matches(before, keys, olds@[p1], links@[p1]));
            match links@[p1] {
                Link::At(j) => {
                    assert(keys[j as int] == keys[p2]);
                    assert(j as int == p2);
                    assert(slots@[p1].status == DONE && slots@[p1].cycle);
                },
                _ => {},
            }
        }
        assert forall|k: u64| #[trigger] detached(before, after, k) implies
            exists|u: int| 0 <= u < report@.len() && report@[u].entity@ == k by {
            let u = choose|u: int| 0 <= u < n && keys[u] == k;
            assert(slots@[u].status == DONE);
            let v = choose|v: int| 0 <= v < log@.len() && log@[v].0 == u;
            assert(is_live_key_at(keys, u));
            lemma_live_key_normalized(keys[u]);
            assert(report@[v].entity@ == k);
        }
    }
    report
}

/// Key `i` of the scene is live (a trigger-friendly instance of `Scene::wf`).
spec fn is_live_key_at(keys: Seq<u64>, i: int) -> bool {
    crate::key::is_live_key(keys[i])
}

/// The transform system of the frame loop.
pub struct TransformSystem;

impl TransformSystem {
    /// Resolves the scene's transforms; see `resolve_transforms`.
    pub fn update(scene: &mut Scene) -> (report: Vec<Detachment>)
        requires
            old(scene).wf(),
        ensures
            final(scene).wf(),
            final(scene).keys() == old(scene).keys(),
            resolution(old(scene).tf(), final(scene).tf()),
            report_matches(old(scene).tf(), final(scene).tf(), report@),
            final(scene).meshes() == old(scene).meshes(),
            final(scene).cameras() == old(scene).cameras(),
            final(scene).players() == old(scene).players(),
    {
        resolve_transforms(scene)
    }
}

// ---------------------------------------------------------------------------
// Laws of resolution.

/// A resolved scene keeps every parent when it is resolved again, so its
/// world matrices come out bit for bit the same.
pub proof fn lemma_resolution_idempotent(
    m0: Map<u64, TransformComponent>,
    m1: Map<u64, TransformComponent>,
    m2: Map<u64, TransformComponent>,
)
    requires
        resolution(m0, m1),
        resolution(m1, m2),
    ensures
        forall|k: u64| #[trigger] m1.contains_key(k) ==> m2[k] == m1[k],
{
    assert forall|k: u64| #[trigger] m1.contains_key(k) implies m2[k] == m1[k] by {
        lemma_same_resolution(m0, m1, m2, k, MAX_PARENT_DEPTH as nat);
    }
}

proof fn lemma_same_resolution(
    m0: Map<u64, TransformComponent>,
    m1: Map<u64, TransformComponent>,
    m2: Map<u64, TransformComponent>,
    k: u64,
    s: nat,
)
    requires
        resolution(m0, m1),
        resolution(m1, m2),
        reaches_root(m1, k, s),
    ensures
        m2[k] == m1[k],
    decreases s,
{
    assert(m1.contains_key(k));
    assert(m0.contains_key(k));
    assert(resolved_record(m0[k], m1[k]));
    assert(resolved_record(m1[k], m2[k]));
    assert(reaches_root(m1, k, MAX_PARENT_DEPTH as nat));
    assert(m2[k].parent == m1[k].parent);
    match m1[k].parent {
        Some(p) => {
            lemma_same_resolution(m0, m1, m2, p@, (s - 1) as nat);
        },
        None => {},
    }
}

/// After resolution a root's world matrix is its local matrix.
pub proof fn lemma_root_world_is_local(
    before: Map<u64, TransformComponent>,
    after: Map<u64, TransformComponent>,
    k: u64,
)
    requires
        resolution(before, after),
        after.contains_key(k),
        after[k].parent.is_none(),
    ensures
        after[k].world == after[k].local,
{
}

/// In a forest, resolution keeps each child's parent and composes the
/// child's world matrix as the parent's world matrix times its local matrix.
pub proof fn lemma_child_world_composed(
    before: Map<u64, TransformComponent>,
    after: Map<u64, TransformComponent>,
    c: u64,
    p: EntityKey,
)
    requires
        resolution(before, after),
        is_forest(before),
        before.contains_key(c),
        before[c].parent == Some(p),
    ensures
        after[c].parent == Some(p),
        after.contains_key(p@),
        after[c].world == mat_product(after[p@].world, after[c].local),
{
    assert(reaches_root(before, c, MAX_PARENT_DEPTH as nat));
    assert(after.contains_key(c));
}

proof fn lemma_two_cycle_unreachable(m: Map<u64, TransformComponent>, a: u64, b: u64, s: nat)
    requires
        m.contains_key(a),
        m.contains_key(b),
        m[a].parent.is_some() && m[a].parent.unwrap()@ == b,
        m[b].parent.is_some() && m[b].parent.unwrap()@ == a,
    ensures
        !reaches_root(m, a, s),
    decreases s,
{
    if reaches_root(m, a, s) {
        assert(s > 0 && reaches_root(m, b, (s - 1) as nat));
        assert(s > 1 && reaches_root(m, a, (s - 2) as nat));
        lemma_two_cycle_unreachable(m, a, b, (s - 2) as nat);
    }
}

/// Two entities that are each other's parent: resolution terminates and
/// leaves at least one of them without a parent.
pub proof fn lemma_mutual_parents_broken(
    before: Map<u64, TransformComponent>,
    after: Map<u64, TransformComponent>,
    a: u64,
    b: u64,
)
    requires
        resolution(before, after),
        before.contains_key(a),
        before.contains_key(b),
        before[a].parent.is_some() && before[a].parent.unwrap()@ == b,
        before[b].parent.is_some() && before[b].parent.unwrap()@ == a,
    ensures
        after[a].parent.is_none() || after[b].parent.is_none(),
{
    assert(resolved_record(before[a], after[a]));
    assert(resolved_record(before[b], after[b]));
    if after[a].parent.is_some() && after[b].parent.is_some() {
        assert(after.contains_key(a));
        lemma_two_cycle_unreachable(after, a, b, MAX_PARENT_DEPTH as nat);
    }
}

/// Two entities that are each other's parent: resolution leaves exactly one
/// of them without a parent.
pub proof fn lemma_mutual_parents_one_cut(
    before: Map<u64, TransformComponent>,
    after: Map<u64, TransformComponent>,
    report: Seq<Detachment>,
    a: u64,
    b: u64,
)
    requires
        resolution(before, after),
        report_matches(before, after, report),
        a != b,
        before.contains_key(a),
        before.contains_key(b),
        before[a].parent.is_some() && before[a].parent.unwrap()@ == b,
        before[b].parent.is_some() && before[b].parent.unwrap()@ == a,
    ensures
        after[a].parent.is_none() != after[b].parent.is_none(),
{
    lemma_mutual_parents_broken(before, after, a, b);
    if after[a].parent.is_none() && after[b].parent.is_none() {
        assert(detached(before, after, a));
        assert(detached(before, after, b));
        let ta = choose|t: int| 0 <= t < report.len() && report[t].entity@ == a;
        let tb = choose|t: int| 0 <= t < report.len() && report[t].entity@ == b;
        let ra = restored(before, after, a);
        let rb = restored(before, after, b);
        assert(after.contains_key(b) && after.contains_key(a));
        assert(ra[b] == after[b]);
        assert(reaches_root(ra, b, (MAX_PARENT_DEPTH - 1) as nat));
        assert(reaches_root(ra, a, MAX_PARENT_DEPTH as nat));
        assert(rb[a] == after[a]);
        assert(reaches_root(rb, a, (MAX_PARENT_DEPTH - 1) as nat));
        assert(reaches_root(rb, b, MAX_PARENT_DEPTH as nat));
        assert(report[ta].cause == DetachCause::Cycle);
        assert(report[tb].cause == DetachCause::Cycle);
    }
}

// ---------------------------------------------------------------------------
// Resolution of entities whose old parent chains reach a root.

/// Following `c` links from an entity that reaches a root within `n` links
/// leads to one that reaches it within `n - c`.
pub proof fn lemma_ancestor_reaches(m: Map<u64, TransformComponent>, y: u64, n: nat, c: nat, z: u64)
    requires
        reaches_root(m, y, n),
        ancestor(m, y, c) == Some(z),
    ensures
        c <= n,
        reaches_root(m, z, (n - c) as nat),
    decreases c,
{
    if c > 0 {
        lemma_ancestor_reaches(m, m[y].parent.unwrap()@, (n - 1) as nat, (c - 1) as nat, z);
    }
}

/// An entity that reaches a root is no ancestor of its own parent.
pub proof fn lemma_not_own_ancestor(m: Map<u64, TransformComponent>, x: u64, n: nat, c: nat)
    requires
        reaches_root(m, x, n),
        m[x].parent.is_some(),
    ensures
        ancestor(m, m[x].parent.unwrap()@, c) != Some(x),
    decreases n,
{
    let p = m[x].parent.unwrap()@;
    if ancestor(m, p, c) == Some(x) {
        lemma_ancestor_reaches(m, p, (n - 1) as nat, c, x);
        lemma_not_own_ancestor(m, x, (n - 1 - c) as nat, c);
    }
}

/// Parent links after resolution are parent links before it.
proof fn lemma_ancestor_before(
    m: Map<u64, TransformComponent>,
    r: Map<u64, TransformComponent>,
    y: u64,
    c: nat,
    z: u64,
)
    requires
        resolution(m, r),
        ancestor(r, y, c) == Some(z),
    ensures
        ancestor(m, y, c) == Some(z),
    decreases c,
{
    if c > 0 {
        assert(m.contains_key(y));
        assert(resolved_record(m[y], r[y]));
        lemma_ancestor_before(m, r, r[y].parent.unwrap()@, (c - 1) as nat, z);
    }
}

/// A chain that never meets `x` is unaffected by replacing the record of `x`.
proof fn lemma_reach_avoiding(r: Map<u64, TransformComponent>, x: u64, tx: TransformComponent, y: u64, s: nat)
    requires
        reaches_root(r, y, s),
        forall|c: nat| ancestor(r, y, c) != Some(x),
    ensures
        reaches_root(r.insert(x, tx), y, s),
    decreases s,
{
    assert(ancestor(r, y, 0) == Some(y));
    match r[y].parent {
        Some(q) => {
            assert forall|c: nat| ancestor(r, q@, c) != Some(x) by {
                assert(ancestor(r, y, c + 1) == ancestor(r, q@, c));
            }
            lemma_reach_avoiding(r, x, tx, q@, (s - 1) as nat);
        },
        None => {},
    }
}

/// An entity whose old chain reaches a root keeps its parent exactly when
/// that parent ends up within `MAX_PARENT_DEPTH - 1` links of a root.
pub proof fn lemma_kept_iff(
    m: Map<u64, TransformComponent>,
    r: Map<u64, TransformComponent>,
    report: Seq<Detachment>,
    x: u64,
    n: nat,
)
    requires
        resolution(m, r),
        report_matches(m, r, report),
        m.contains_key(x),
        m[x].parent.is_some(),
        reaches_root(m, x, n),
    ensures
        (r[x].parent == m[x].parent) <==> reaches_root(r, m[x].parent.unwrap()@, (MAX_PARENT_DEPTH - 1) as nat),
{
    let p = m[x].parent.unwrap()@;
    assert(resolved_record(m[x], r[x]));
    assert(r.contains_key(x));
    if r[x].parent == m[x].parent {
        assert(reaches_root(r, x, MAX_PARENT_DEPTH as nat));
    } else if reaches_root(r, p, (MAX_PARENT_DEPTH - 1) as nat) {
        assert(detached(m, r, x));
        let t = choose|t: int| 0 <= t < report.len() && report[t].entity@ == x;
        assert(reaches_root(m, p, (n - 1) as nat));
        match report[t].cause {
            DetachCause::Cycle => {
                let c = choose|c: nat| ancestor(m, p, c) == Some(x);
                lemma_not_own_ancestor(m, x, n, c);
            },
            _ => {
                let tx = TransformComponent { parent: m[x].parent, ..r[x] };
                assert forall|c: nat| ancestor(r, p, c) != Some(x) by {
                    if ancestor(r, p, c) == Some(x) {
                        lemma_ancestor_before(m, r, p, c, x);
                        lemma_not_own_ancestor(m, x, n, c);
                    }
                }
                lemma_reach_avoiding(r, x, tx, p, (MAX_PARENT_DEPTH - 1) as nat);
                let rm = restored(m, r, x);
                assert(rm[x] == tx);
                assert(reaches_root(rm, x, MAX_PARENT_DEPTH as nat));
            },
        }
    }
}

} // verus!

//! Reachability of backups from full backups, over the parent links that
//! incremental backups carry.
use vstd::prelude::*;

verus! {

/// A backup as the orphan check sees it: its UUID, and the UUID of the
/// backup it was taken against (none for a full backup).
pub struct NodeLink {
    pub uuid: u128,
    pub parent: Option<u128>,
}

/// `u` is reached from a full backup in at most `k` parent steps.
pub open spec fn rooted_within(links: Seq<NodeLink>, u: u128, k: nat) -> bool
    decreases k,
{
    if k == 0 {
        exists|i: int| 0 <= i < links.len() && links[i].uuid == u && links[i].parent is None
    } else {
        rooted_within(links, u, (k - 1) as nat) || exists|i: int|
            0 <= i < links.len() && links[i].uuid == u && #[trigger] links[i].parent is Some
                && rooted_within(links, links[i].parent.unwrap(), (k - 1) as nat)
    }
}

/// `u` is reached from a full backup through parent links.
pub open spec fn is_rooted(links: Seq<NodeLink>, u: u128) -> bool {
    exists|k: nat| rooted_within(links, u, k)
}

/// The UUIDs of the incremental backups whose parent is not reached from a
/// full backup.
pub open spec fn orphan_set(links: Seq<NodeLink>) -> Set<u128> {
    Set::new(
        |u: u128|
            exists|i: int|
                0 <= i < links.len() && links[i].uuid == u && #[trigger] links[i].parent is Some && !is_rooted(links, links[i].parent.unwrap()),
    )
}

/// A set of UUIDs that holds every full backup's UUID and, with a parent,
/// each child's UUID.
pub open spec fn closed_under_links(links: Seq<NodeLink>, rr: Set<u128>) -> bool {
    &&& forall|i: int| 0 <= i < links.len() && links[i].parent is None ==> rr.contains(#[trigger] links[i].uuid)
    &&& forall|i: int|
        0 <= i < links.len() && #[trigger] links[i].parent is Some && rr.contains(links[i].parent.unwrap())
            ==> rr.contains(links[i].uuid)
}

pub proof fn lemma_closed_holds_rooted(links: Seq<NodeLink>, rr: Set<u128>, u: u128, k: nat)
    requires
        closed_under_links(links, rr),
        rooted_within(links, u, k),
    ensures
        rr.contains(u),
    decreases k,
{
    if k == 0 {
        let i = choose|i: int| 0 <= i < links.len() && links[i].uuid == u && links[i].parent is None;
        assert(rr.contains(links[i].uuid));
    } else if rooted_within(links, u, (k - 1) as nat) {
        lemma_closed_holds_rooted(links, rr, u, (k - 1) as nat);
    } else {
        let i = choose|i: int|
            0 <= i < links.len() && links[i].uuid == u && #[trigger] links[i].parent is Some
                && rooted_within(links, links[i].parent.unwrap(), (k - 1) as nat);
        let p = links[i].parent.unwrap();
        lemma_closed_holds_rooted(links, rr, p, (k - 1) as nat);
    }
}

/// Whether `a` and `b` hold the same links, in whatever order and number.
pub open spec fn same_links(a: Seq<NodeLink>, b: Seq<NodeLink>) -> bool {
    forall|x: NodeLink| a.contains(x) <==> b.contains(x)
}

proof fn lemma_rooted_same_links(a: Seq<NodeLink>, b: Seq<NodeLink>, u: u128, k: nat)
    requires
        same_links(a, b),
    ensures
        rooted_within(a, u, k) == rooted_within(b, u, k),
    decreases k,
{
    if k == 0 {
        if rooted_within(a, u, 0) {
            let i = choose|i: int| 0 <= i < a.len() && a[i].uuid == u && a[i].parent is None;
            assert(a.contains(a[i]));
            assert(b.contains(a[i]));
        }
        if rooted_within(b, u, 0) {
            let i = choose|i: int| 0 <= i < b.len() && b[i].uuid == u && b[i].parent is None;
            assert(b.contains(b[i]));
            assert(a.contains(b[i]));
        }
    } else {
        lemma_rooted_same_links(a, b, u, (k - 1) as nat);
        assert forall|p: u128| #[trigger] rooted_within(a, p, (k - 1) as nat) == rooted_within(b, p, (k - 1) as nat) by {
            lemma_rooted_same_links(a, b, p, (k - 1) as nat);
        }
        if exists|i: int|
            0 <= i < a.len() && a[i].uuid == u && #[trigger] a[i].parent is Some
                && rooted_within(a, a[i].parent.unwrap(), (k - 1) as nat) {
            let i = choose|i: int|
                0 <= i < a.len() && a[i].uuid == u && #[trigger] a[i].parent is Some
                    && rooted_within(a, a[i].parent.unwrap(), (k - 1) as nat);
            assert(a.contains(a[i]));
            let j = choose|j: int| 0 <= j < b.len() && b[j] == a[i];
            assert(b[j].parent == a[i].parent);
        }
        if exists|i: int|
            0 <= i < b.len() && b[i].uuid == u && #[trigger] b[i].parent is Some
                && rooted_within(b, b[i].parent.unwrap(), (k - 1) as nat) {
            let i = choose|i: int|
                0 <= i < b.len() && b[i].uuid == u && #[trigger] b[i].parent is Some
                    && rooted_within(b, b[i].parent.unwrap(), (k - 1) as nat);
            assert(b.contains(b[i]));
            let j = choose|j: int| 0 <= j < a.len() && a[j] == b[i];
            assert(a[j].parent == b[i].parent);
        }
    }
}

/// The orphan set depends only on which links are present, not on their
/// order or repetition.
pub proof fn lemma_orphans_same_links(a: Seq<NodeLink>, b: Seq<NodeLink>)
    requires
        same_links(a, b),
    ensures
        orphan_set(a) == orphan_set(b),
{
    assert forall|p: u128| #[trigger] is_rooted(a, p) == is_rooted(b, p) by {
        if is_rooted(a, p) {
            let k = choose|k: nat| rooted_within(a, p, k);
            lemma_rooted_same_links(a, b, p, k);
        }
        if is_rooted(b, p) {
            let k = choose|k: nat| rooted_within(b, p, k);
            lemma_rooted_same_links(a, b, p, k);
        }
    }
    assert forall|u: u128| orphan_set(a).contains(u) implies orphan_set(b).contains(u) by {
        let i = choose|i: int|
            0 <= i < a.len() && a[i].uuid == u && #[trigger] a[i].parent is Some && !is_rooted(a, a[i].parent.unwrap());
        assert(a.contains(a[i]));
        let j = choose|j: int| 0 <= j < b.len() && b[j] == a[i];
        assert(b[j].parent == a[i].parent);
    }
    assert forall|u: u128| orphan_set(b).contains(u) implies orphan_set(a).contains(u) by {
        let i = choose|i: int|
            0 <= i < b.len() && b[i].uuid == u && #[trigger] b[i].parent is Some && !is_rooted(b, b[i].parent.unwrap());
        assert(b.contains(b[i]));
        let j = choose|j: int| 0 <= j < a.len() && a[j] == b[i];
        assert(a[j].parent == b[i].parent);
    }
    assert(orphan_set(a) =~= orphan_set(b));
}

/// With UUIDs unique, a full backup is never an orphan.
pub proof fn lemma_full_never_orphan(links: Seq<NodeLink>, i: int)
    requires
        0 <= i < links.len(),
        links[i].parent is None,
        forall|a: int, b: int| 0 <= a < links.len() && 0 <= b < links.len() && links[a].uuid == links[b].uuid ==> a == b,
    ensures
        !orphan_set(links).contains(links[i].uuid),
{
}

/// Backups whose UUIDs form a set in which every backup of such a UUID is
/// incremental and has its parent in the set again (a cycle, with no full
/// backup above it) are all orphans.
pub proof fn lemma_cycle_all_orphans(links: Seq<NodeLink>, cycle: Set<u128>)
    requires
        forall|i: int|
            0 <= i < links.len() && cycle.contains(#[trigger] links[i].uuid) ==> links[i].parent is Some
                && cycle.contains(links[i].parent.unwrap()),
        forall|u: u128| cycle.contains(u) ==> exists|i: int| 0 <= i < links.len() && links[i].uuid == u,
    ensures
        cycle.subset_of(orphan_set(links)),
{
    assert forall|u: u128, k: nat| cycle.contains(u) implies !#[trigger] rooted_within(links, u, k) by {
        lemma_cycle_not_rooted(links, cycle, u, k);
    }
    assert forall|u: u128| cycle.contains(u) implies orphan_set(links).contains(u) by {
        let i = choose|i: int| 0 <= i < links.len() && links[i].uuid == u;
        let p = links[i].parent.unwrap();
        assert(cycle.contains(p));
        assert(!is_rooted(links, p));
    }
}

proof fn lemma_cycle_not_rooted(links: Seq<NodeLink>, cycle: Set<u128>, u: u128, k: nat)
    requires
        forall|i: int|
            0 <= i < links.len() && cycle.contains(#[trigger] links[i].uuid) ==> links[i].parent is Some
                && cycle.contains(links[i].parent.unwrap()),
        cycle.contains(u),
    ensures
        !rooted_within(links, u, k),
    decreases k,
{
    if k > 0 {
        lemma_cycle_not_rooted(links, cycle, u, (k - 1) as nat);
        assert forall|i: int|
            0 <= i < links.len() && links[i].uuid == u && #[trigger] links[i].parent is Some implies !rooted_within(
                links,
                links[i].parent.unwrap(),
                (k - 1) as nat,
            ) by {
            let p = links[i].parent.unwrap();
            lemma_cycle_not_rooted(links, cycle, p, (k - 1) as nat);
        }
    }
}

} // verus!

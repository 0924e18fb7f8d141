//! The core multi-pattern substring index: a radix tree of byte chunks with a
//! fixed 256-wide root array indexed by the first byte of each phrase.
//!
//! A phrase is registered for a subscriber id by walking the tree along the
//! phrase's bytes, splitting edges where needed, and recording the id at the
//! node reached after consuming the whole phrase.  A query walks the tree once
//! from every cursor position of the text and collects every id recorded on a
//! node whose path is a prefix of the remaining text, deduplicating ids.

use vstd::prelude::*;
use vstd::hash_set::HashSetWithView;
use vstd::slice::slice_subrange;
use crate::codec::{hex_decode, hex_valid, hex_bytes, HexError};

verus! {

broadcast use {vstd::std_specs::hash::group_hash_axioms, vstd::seq_lib::lemma_seq_contains_after_push};

/// A subscriber record: a process-unique id, an optional stable external
/// identifier, the registered phrases, the delivery endpoint, and the decoded
/// 32-byte signing key.  The id is assigned by the caller, who owns the
/// monotone counter; the downtime-start timestamp (0 means healthy) is kept
/// here as a plain value, and callers that share the record across tasks keep
/// their own synchronized copy of it.
pub struct User {
    pub id: u64,
    pub did: Option<String>,
    pub phrases: Vec<String>,
    pub endpoint: String,
    pub private_key: Vec<u8>,
    pub user_downtime_started: i64,
}

impl User {
    /// Builds a subscriber record from its hex-encoded signing key.  Fails
    /// exactly when the key text is not valid hex.
    pub fn new(id: u64, did: Option<String>, endpoint: String, private_key: &[u8]) -> (r: Result<
        Self,
        HexError,
    >)
        ensures
            match r {
                Ok(u) => {
                    &&& hex_valid(private_key@)
                    &&& u.id == id
                    &&& u.did == did
                    &&& u.phrases@ == Seq::<String>::empty()
                    &&& u.endpoint == endpoint
                    &&& u.private_key@ == hex_bytes(private_key@)
                    &&& u.user_downtime_started == 0
                },
                Err(_) => !hex_valid(private_key@),
            },
    {
        match hex_decode(private_key) {
            Ok(key) => Ok(User {
                id,
                did,
                phrases: Vec::new(),
                endpoint,
                private_key: key,
                user_downtime_started: 0,
            }),
            Err(e) => Err(e),
        }
    }
}

/// One node of the radix tree: byte-labeled edges to children, and the ids of
/// the subscribers whose phrase terminates exactly at this node.
pub struct BulkSearchBranch {
    pub mapping: Vec<(Vec<u8>, BulkSearchBranch)>,
    pub users: Vec<u64>,
}

/// `p` is a prefix of `s`.
pub open spec fn is_prefix(p: Seq<u8>, s: Seq<u8>) -> bool {
    p.len() <= s.len() && forall|i: int| 0 <= i < p.len() ==> p[i] == s[i]
}

/// The edge labeled `l` can be taken when `q` remains: the label is non-empty
/// and a prefix of `q`.
pub open spec fn edge_matches(l: Seq<u8>, q: Seq<u8>) -> bool {
    0 < l.len() && is_prefix(l, q)
}

/// No id occurs twice.
pub open spec fn distinct_ids(s: Seq<u64>) -> bool {
    forall|i: int, j: int| 0 <= i < j < s.len() ==> s[i] != s[j]
}

impl BulkSearchBranch {
    /// Well-formedness: every edge label is non-empty, no two edge labels at
    /// one node start with the same byte (hence no two labels share a
    /// non-empty common prefix: the Patricia property), the subscriber list
    /// holds no id twice, and the same holds in every child.
    pub open spec fn wf(self) -> bool
        decreases self,
    {
        &&& forall|i: int|
            0 <= i < self.mapping.len() ==> (#[trigger] self.mapping[i]).0@.len() > 0
        &&& forall|i: int, j: int|
            0 <= i < self.mapping.len() && 0 <= j < self.mapping.len() && i != j
                ==> (#[trigger] self.mapping[i]).0@[0] != (#[trigger] self.mapping[j]).0@[0]
        &&& distinct_ids(self.users@)
        &&& forall|i: int|
            0 <= i < self.mapping.len() ==> (#[trigger] self.mapping[i]).1.wf()
    }

    /// Consuming exactly `q` from this node reaches a node whose subscriber
    /// list contains `id`: the pair `(q, id)` is registered under this node.
    pub open spec fn has(self, q: Seq<u8>, id: u64) -> bool
        decreases self,
    {
        if q.len() == 0 {
            self.users@.contains(id)
        } else {
            exists|i: int|
                0 <= i < self.mapping.len() && edge_matches((#[trigger] self.mapping[i]).0@, q)
                    && self.mapping[i].1.has(q.skip(self.mapping[i].0@.len() as int), id)
        }
    }

    /// Consuming exactly `q` from this node lands on a node of the tree.
    pub open spec fn has_node(self, q: Seq<u8>) -> bool
        decreases self,
    {
        q.len() == 0 || exists|i: int|
            0 <= i < self.mapping.len() && edge_matches((#[trigger] self.mapping[i]).0@, q)
                && self.mapping[i].1.has_node(q.skip(self.mapping[i].0@.len() as int))
    }
}

/// Some prefix of `rest` is a registered path for `id` under `b`: a query
/// walk from `b` with `rest` left to read reports `id`.
pub open spec fn reach(b: BulkSearchBranch, rest: Seq<u8>, id: u64) -> bool {
    exists|q: Seq<u8>| is_prefix(q, rest) && #[trigger] b.has(q, id)
}

/// At a well-formed node, at most one edge label is a prefix of `q`.
pub proof fn lemma_edge_unique(b: BulkSearchBranch, q: Seq<u8>, i: int, j: int)
    requires
        b.wf(),
        0 <= i < b.mapping.len(),
        0 <= j < b.mapping.len(),
        edge_matches(b.mapping[i].0@, q),
        edge_matches(b.mapping[j].0@, q),
    ensures
        i == j,
{
    if i != j {
        assert(b.mapping[i].0@[0] == q[0]);
        assert(b.mapping[j].0@[0] == q[0]);
    }
}

/// If the edge `j` matches `q`, registration of a non-empty `q` goes through
/// that edge and no other.
pub proof fn lemma_has_route(b: BulkSearchBranch, q: Seq<u8>, id: u64, j: int)
    requires
        b.wf(),
        q.len() > 0,
        0 <= j < b.mapping.len(),
        edge_matches(b.mapping[j].0@, q),
    ensures
        b.has(q, id) == b.mapping[j].1.has(q.skip(b.mapping[j].0@.len() as int), id),
        b.has_node(q) == b.mapping[j].1.has_node(q.skip(b.mapping[j].0@.len() as int)),
{
    if b.has(q, id) {
        let i = choose|i: int|
            0 <= i < b.mapping.len() && edge_matches((#[trigger] b.mapping[i]).0@, q)
                && b.mapping[i].1.has(q.skip(b.mapping[i].0@.len() as int), id);
        lemma_edge_unique(b, q, i, j);
    }
    if b.mapping[j].1.has(q.skip(b.mapping[j].0@.len() as int), id) {
        assert(b.has(q, id));
    }
    if b.has_node(q) {
        let i = choose|i: int|
            0 <= i < b.mapping.len() && edge_matches((#[trigger] b.mapping[i]).0@, q)
                && b.mapping[i].1.has_node(q.skip(b.mapping[i].0@.len() as int));
        lemma_edge_unique(b, q, i, j);
    }
    if b.mapping[j].1.has_node(q.skip(b.mapping[j].0@.len() as int)) {
        assert(b.has_node(q));
    }
}

/// If no edge matches a non-empty `q`, nothing is registered under it.
pub proof fn lemma_no_route(b: BulkSearchBranch, q: Seq<u8>, id: u64)
    requires
        b.wf(),
        q.len() > 0,
        forall|k: int|
            0 <= k < b.mapping.len() ==> !edge_matches((#[trigger] b.mapping[k]).0@, q),
    ensures
        !b.has(q, id),
        !b.has_node(q),
{
}

/// Ids on the node itself are reported whatever remains to be read.
pub proof fn lemma_users_reach(b: BulkSearchBranch, rest: Seq<u8>, id: u64)
    requires
        b.users@.contains(id),
    ensures
        reach(b, rest, id),
{
    let q = Seq::<u8>::empty();
    assert(is_prefix(q, rest));
    assert(b.has(q, id));
}

/// Taking the unique matching edge preserves what a walk can still report:
/// everything reachable here is either on this node or reachable below.
pub proof fn lemma_reach_step(b: BulkSearchBranch, rest: Seq<u8>, id: u64, j: int)
    requires
        b.wf(),
        0 <= j < b.mapping.len(),
        edge_matches(b.mapping[j].0@, rest),
    ensures
        reach(b, rest, id) == (b.users@.contains(id) || reach(
            b.mapping[j].1,
            rest.skip(b.mapping[j].0@.len() as int),
            id,
        )),
{
    let l = b.mapping[j].0@;
    let child = b.mapping[j].1;
    let rest2 = rest.skip(l.len() as int);
    if reach(b, rest, id) {
        let q = choose|q: Seq<u8>| is_prefix(q, rest) && #[trigger] b.has(q, id);
        if q.len() > 0 {
            let i = choose|i: int|
                0 <= i < b.mapping.len() && edge_matches((#[trigger] b.mapping[i]).0@, q)
                    && b.mapping[i].1.has(q.skip(b.mapping[i].0@.len() as int), id);
            assert(edge_matches(b.mapping[i].0@, rest));
            lemma_edge_unique(b, rest, i, j);
            let q2 = q.skip(l.len() as int);
            assert(is_prefix(q2, rest2));
            assert(child.has(q2, id));
            assert(reach(child, rest2, id));
        }
    }
    if b.users@.contains(id) {
        lemma_users_reach(b, rest, id);
    }
    if reach(child, rest2, id) {
        let q2 = choose|q2: Seq<u8>| is_prefix(q2, rest2) && #[trigger] child.has(q2, id);
        let q = l + q2;
        assert(q.skip(l.len() as int) =~= q2);
        assert(edge_matches(l, q));
        assert(b.has(q, id));
        assert(is_prefix(q, rest)) by {
            assert forall|i: int| 0 <= i < q.len() implies q[i] == rest[i] by {
                if i >= l.len() {
                    assert(q[i] == q2[i - l.len()]);
                    assert(q2[i - l.len()] == rest2[i - l.len()]);
                }
            }
        }
        assert(reach(b, rest, id));
    }
}

/// When no edge matches what remains, the walk ends here: only the ids on
/// this node are still reachable.
pub proof fn lemma_reach_end(b: BulkSearchBranch, rest: Seq<u8>, id: u64)
    requires
        b.wf(),
        forall|k: int|
            0 <= k < b.mapping.len() ==> !edge_matches((#[trigger] b.mapping[k]).0@, rest),
    ensures
        reach(b, rest, id) == b.users@.contains(id),
{
    if reach(b, rest, id) {
        let q = choose|q: Seq<u8>| is_prefix(q, rest) && #[trigger] b.has(q, id);
        if q.len() > 0 {
            let i = choose|i: int|
                0 <= i < b.mapping.len() && edge_matches((#[trigger] b.mapping[i]).0@, q)
                    && b.mapping[i].1.has(q.skip(b.mapping[i].0@.len() as int), id);
            assert(edge_matches(b.mapping[i].0@, rest));
        }
    }
    if b.users@.contains(id) {
        lemma_users_reach(b, rest, id);
    }
}

/// Pushing a fresh id keeps the list duplicate free.
pub proof fn lemma_push_id(s: Seq<u64>, x: u64)
    requires
        distinct_ids(s),
        !s.contains(x),
    ensures
        distinct_ids(s.push(x)),
{
    assert forall|i: int, j: int| 0 <= i < j < s.push(x).len() implies s.push(x)[i] != s.push(
        x,
    )[j] by {
        if j == s.len() {
            assert(s[i] == s.push(x)[i]);
            assert(s.contains(s[i]));
        }
    }
}

/// Compares a prefix: `p@` is a prefix of `s@`.
pub fn is_prefix_of(p: &[u8], s: &[u8]) -> (r: bool)
    ensures
        r == is_prefix(p@, s@),
{
    if p.len() > s.len() {
        return false;
    }
    let mut i: usize = 0;
    while i < p.len()
        invariant
            i <= p@.len() <= s@.len(),
            forall|k: int| 0 <= k < i ==> p@[k] == s@[k],
        decreases p@.len() - i,
    {
        if p[i] != s[i] {
            return false;
        }
        i += 1;
    }
    true
}

/// Returns `v@.contains(x)`.
pub fn vec_contains_id(v: &Vec<u64>, x: u64) -> (r: bool)
    ensures
        r == v@.contains(x),
{
    let mut i: usize = 0;
    while i < v.len()
        invariant
            i <= v@.len(),
            forall|k: int| 0 <= k < i ==> v@[k] != x,
        decreases v@.len() - i,
    {
        if v[i] == x {
            return true;
        }
        i += 1;
    }
    false
}

/// Scans the edges of a well-formed node for the unique one whose label is a
/// prefix of `remaining`.
pub fn find_edge(branch: &BulkSearchBranch, remaining: &[u8]) -> (r: Option<usize>)
    requires
        branch.wf(),
    ensures
        match r {
            Some(j) => (j as int) < branch.mapping.len() && edge_matches(
                branch.mapping[j as int].0@,
                remaining@,
            ),
            None => forall|k: int|
                0 <= k < branch.mapping.len() ==> !edge_matches(
                    (#[trigger] branch.mapping[k]).0@,
                    remaining@,
                ),
        },
{
    let mut ei: usize = 0;
    while ei < branch.mapping.len()
        invariant
            branch.wf(),
            ei <= branch.mapping.len(),
            forall|k: int|
                0 <= k < ei ==> !edge_matches((#[trigger] branch.mapping[k]).0@, remaining@),
        decreases branch.mapping.len() - ei,
    {
        if is_prefix_of(branch.mapping[ei].0.as_slice(), remaining) {
            return Some(ei);
        }
        ei += 1;
    }
    None
}

/// Walks from `branch` while edge labels match the remaining text, unioning
/// every visited node's subscriber list into `users`; `consumed_users` holds
/// the ids already reported and keeps the result duplicate free.
pub fn walk_branch(
    branch: &BulkSearchBranch,
    remaining_path: &[u8],
    consumed_users: &mut HashSetWithView<u64>,
    users: &mut Vec<u64>,
)
    requires
        branch.wf(),
        forall|id: u64| old(users)@.contains(id) == old(consumed_users)@.contains(id),
        distinct_ids(old(users)@),
    ensures
        forall|id: u64|
            final(consumed_users)@.contains(id) == (old(consumed_users)@.contains(id) || reach(
                *branch,
                remaining_path@,
                id,
            )),
        forall|id: u64| final(users)@.contains(id) == final(consumed_users)@.contains(id),
        distinct_ids(final(users)@),
{
    let mut cur: &BulkSearchBranch = branch;
    let mut remaining: &[u8] = remaining_path;
    loop
        invariant
            cur.wf(),
            forall|id: u64| users@.contains(id) == consumed_users@.contains(id),
            distinct_ids(users@),
            forall|id: u64|
                (old(consumed_users)@.contains(id) || reach(*branch, remaining_path@, id)) == (
                consumed_users@.contains(id) || reach(*cur, remaining@, id)),
        decreases remaining@.len(),
    {
        let ghost pre = consumed_users@;
        proof {
            // Name the loop invariant over the snapshot `pre`, for use after
            // the set has been mutated.
            assert(forall|id: u64|
                (old(consumed_users)@.contains(id) || reach(*branch, remaining_path@, id)) == (
                pre.contains(id) || reach(*cur, remaining@, id)));
        }
        let mut ui: usize = 0;
        while ui < cur.users.len()
            invariant
                cur.wf(),
                ui <= cur.users@.len(),
                forall|id: u64| users@.contains(id) == consumed_users@.contains(id),
                distinct_ids(users@),
                forall|id: u64|
                    consumed_users@.contains(id) == (pre.contains(id) || cur.users@.take(
                        ui as int,
                    ).contains(id)),
            decreases cur.users@.len() - ui,
        {
            let id = cur.users[ui];
            let ghost prev_users = users@;
            let ghost cpre = consumed_users@;
            let was_new = consumed_users.insert(id);
            if was_new {
                users.push(id);
                proof {
                    lemma_push_id(prev_users, id);
                }
            }
            proof {
                // Name the inner invariant over the snapshot `cpre` before
                // relating the mutated set to it.
                assert(forall|id3: u64|
                    cpre.contains(id3) == (pre.contains(id3) || cur.users@.take(
                        ui as int,
                    ).contains(id3)));
                assert(cur.users@.take(ui + 1) =~= cur.users@.take(ui as int).push(id));
                assert forall|id2: u64| consumed_users@.contains(id2) == (pre.contains(id2)
                    || cur.users@.take(ui + 1).contains(id2)) by {
                    assert(cpre.contains(id2) == (pre.contains(id2) || cur.users@.take(
                        ui as int,
                    ).contains(id2)));
                    assert(cur.users@.take(ui + 1).contains(id2) == (cur.users@.take(
                        ui as int,
                    ).contains(id2) || id2 == id));
                    assert(consumed_users@.contains(id2) == (cpre.contains(id2) || id2 == id));
                }
            }
            ui += 1;
        }
        proof {
            assert(cur.users@.take(cur.users@.len() as int) =~= cur.users@);
            assert(forall|id: u64|
                consumed_users@.contains(id) == (pre.contains(id) || cur.users@.contains(id)));
        }
        if remaining.is_empty() {
            proof {
                assert forall|id: u64|
                    consumed_users@.contains(id) == (old(consumed_users)@.contains(id) || reach(
                        *branch,
                        remaining_path@,
                        id,
                    )) by {
                    lemma_reach_end(*cur, remaining@, id);
                    assert(consumed_users@.contains(id) == (pre.contains(id)
                        || cur.users@.contains(id)));
                    assert((old(consumed_users)@.contains(id) || reach(*branch, remaining_path@, id)) == (
                    pre.contains(id) || reach(*cur, remaining@, id)));
                }
            }
            return ;
        }
        let je = find_edge(cur, remaining);
        match je {
            None => {
                proof {
                    assert forall|id: u64|
                        consumed_users@.contains(id) == (old(consumed_users)@.contains(id)
                            || reach(*branch, remaining_path@, id)) by {
                        lemma_reach_end(*cur, remaining@, id);
                        assert(consumed_users@.contains(id) == (pre.contains(id)
                            || cur.users@.contains(id)));
                        assert((old(consumed_users)@.contains(id) || reach(*branch, remaining_path@, id))
                            == (pre.contains(id) || reach(*cur, remaining@, id)));
                    }
                }
                return ;
            },
            Some(j) => {
                let l_len = cur.mapping[j].0.len();
                let ghost prev_cur = *cur;
                let ghost rem_pre = remaining@;
                remaining = slice_subrange(remaining, l_len, remaining.len());
                cur = &cur.mapping[j].1;
                proof {
                    assert(remaining@ =~= rem_pre.skip(l_len as int));
                    assert forall|id: u64|
                        (old(consumed_users)@.contains(id) || reach(*branch, remaining_path@, id)) == (
                        consumed_users@.contains(id) || reach(*cur, remaining@, id)) by {
                        lemma_reach_step(prev_cur, rem_pre, id, j as int);
                    }
                }
            },
        }
    }
}


/// Length of the longest common prefix of `a@` and `b@`.
pub fn common_prefix_len(a: &[u8], b: &[u8]) -> (k: usize)
    ensures
        k <= a@.len() && k <= b@.len(),
        forall|m: int| 0 <= m < k ==> a@[m] == b@[m],
        k < a@.len() && k < b@.len() ==> a@[k as int] != b@[k as int],
{
    let mut i: usize = 0;
    while i < a.len() && i < b.len()
        invariant
            i <= a@.len() && i <= b@.len(),
            forall|m: int| 0 <= m < i ==> a@[m] == b@[m],
        decreases a@.len() - i,
    {
        if a[i] != b[i] {
            return i;
        }
        i += 1;
    }
    i
}

/// Splits the edge `node` at offset `split_at`: the label keeps its first
/// `split_at` bytes, and a fresh junction node takes the subscriber and hangs
/// the old child under the rest of the label.
pub fn split_node(node: &mut (Vec<u8>, BulkSearchBranch), split_at: usize, user_id: u64)
    requires
        0 < split_at < old(node).0@.len(),
    ensures
        final(node).0@ == old(node).0@.take(split_at as int),
        final(node).1.mapping@.len() == 1,
        final(node).1.mapping@[0].0@ == old(node).0@.skip(split_at as int),
        final(node).1.mapping@[0].1 == old(node).1,
        final(node).1.users@ == seq![user_id],
{
    let suffix: Vec<u8> = vstd::slice::slice_to_vec(
        slice_subrange(node.0.as_slice(), split_at, node.0.len()),
    );
    node.0.truncate(split_at);
    let mut child = BulkSearchBranch { mapping: Vec::new(), users: Vec::new() };
    core::mem::swap(&mut child, &mut node.1);
    let mut junction_mapping: Vec<(Vec<u8>, BulkSearchBranch)> = Vec::new();
    junction_mapping.push((suffix, child));
    let mut junction_users: Vec<u64> = Vec::new();
    junction_users.push(user_id);
    let mut junction = BulkSearchBranch { mapping: junction_mapping, users: junction_users };
    core::mem::swap(&mut node.1, &mut junction);
    proof {
        assert(node.1.users@ =~= seq![user_id]);
    }
}


/// Replacing the child under edge `j` with a well-formed node, keeping the
/// label, keeps the node well formed; registrations re-route through the new
/// child under that edge and are untouched elsewhere.
pub proof fn lemma_update_child(b: BulkSearchBranch, b2: BulkSearchBranch, j: int)
    requires
        b.wf(),
        0 <= j < b.mapping.len(),
        b2.users == b.users,
        b2.mapping@.len() == b.mapping@.len(),
        forall|i: int| 0 <= i < b.mapping@.len() && i != j ==> b2.mapping@[i] == b.mapping@[i],
        b2.mapping@[j].0 == b.mapping@[j].0,
        b2.mapping@[j].1.wf(),
    ensures
        b2.wf(),
        forall|q: Seq<u8>, id: u64|
            q.len() > 0 && edge_matches(b.mapping@[j].0@, q) ==> (#[trigger] b2.has(q, id))
                == b2.mapping@[j].1.has(q.skip(b.mapping@[j].0@.len() as int), id),
        forall|q: Seq<u8>, id: u64|
            !(q.len() > 0 && edge_matches(b.mapping@[j].0@, q)) ==> (#[trigger] b2.has(q, id))
                == b.has(q, id),
{
    assert(b2.wf());
    assert forall|q: Seq<u8>, id: u64|
        q.len() > 0 && edge_matches(b.mapping@[j].0@, q) implies (#[trigger] b2.has(q, id))
        == b2.mapping@[j].1.has(q.skip(b.mapping@[j].0@.len() as int), id) by {
        lemma_has_route(b2, q, id, j);
    }
    assert forall|q: Seq<u8>, id: u64|
        !(q.len() > 0 && edge_matches(b.mapping@[j].0@, q)) implies (#[trigger] b2.has(q, id))
        == b.has(q, id) by {
        if q.len() > 0 {
            if b2.has(q, id) {
                let i = choose|i: int|
                    0 <= i < b2.mapping.len() && edge_matches((#[trigger] b2.mapping[i]).0@, q)
                        && b2.mapping[i].1.has(q.skip(b2.mapping[i].0@.len() as int), id);
                assert(i != j);
                assert(b2.mapping@[i] == b.mapping@[i]);
                assert(b.has(q, id));
            }
            if b.has(q, id) {
                let i = choose|i: int|
                    0 <= i < b.mapping.len() && edge_matches((#[trigger] b.mapping[i]).0@, q)
                        && b.mapping[i].1.has(q.skip(b.mapping[i].0@.len() as int), id);
                assert(i != j);
                assert(b2.mapping@[i] == b.mapping@[i]);
                assert(b2.has(q, id));
            }
        }
    }
}


/// Splitting the edge `j` at offset `k` — shortening its label to `k` bytes
/// and hanging the old child under a junction that carries the rest of the
/// label — registers exactly the pair `(rp, uid)` and nothing else.  When the
/// whole remainder `rp` is the shortened label, the junction itself carries
/// the subscriber; when `rp` diverges from the label after `k` bytes, the
/// junction carries two children, the old one and a fresh leaf for the
/// subscriber.
pub proof fn lemma_split_edge(
    b: BulkSearchBranch,
    b2: BulkSearchBranch,
    j: int,
    k: int,
    rp: Seq<u8>,
    uid: u64,
)
    requires
        b.wf(),
        0 <= j < b.mapping.len(),
        0 < k < b.mapping@[j].0@.len(),
        0 < k <= rp.len(),
        forall|m: int| 0 <= m < k ==> rp[m] == b.mapping@[j].0@[m],
        k == rp.len() || b.mapping@[j].0@[k] != rp[k],
        b2.users == b.users,
        b2.mapping@.len() == b.mapping@.len(),
        forall|i: int| 0 <= i < b.mapping@.len() && i != j ==> b2.mapping@[i] == b.mapping@[i],
        b2.mapping@[j].0@ == b.mapping@[j].0@.take(k),
        b2.mapping@[j].1.users@ == (if k == rp.len() {
            seq![uid]
        } else {
            Seq::<u64>::empty()
        }),
        b2.mapping@[j].1.mapping@.len() == (if k == rp.len() {
            1int
        } else {
            2int
        }),
        b2.mapping@[j].1.mapping@[0].0@ == b.mapping@[j].0@.skip(k),
        b2.mapping@[j].1.mapping@[0].1 == b.mapping@[j].1,
        k < rp.len() ==> b2.mapping@[j].1.mapping@[1].0@ == rp.skip(k)
            && b2.mapping@[j].1.mapping@[1].1.mapping@.len() == 0
            && b2.mapping@[j].1.mapping@[1].1.users@ == seq![uid],
    ensures
        b2.wf(),
        !b.has(rp, uid),
        forall|q: Seq<u8>, id: u64|
            #[trigger] b2.has(q, id) == (b.has(q, id) || (q == rp && id == uid)),
{
    let l = b.mapping@[j].0@;
    let c = b.mapping@[j].1;
    let jn = b2.mapping@[j].1;
    let l2 = l.take(k);

    // The junction (and, in the two-child case, the fresh leaf) is well
    // formed.
    if k < rp.len() {
        let leaf = jn.mapping@[1].1;
        assert(distinct_ids(leaf.users@));
        assert(leaf.wf());
        assert(jn.mapping@[0].0@[0] == l[k]);
        assert(jn.mapping@[1].0@[0] == rp[k]);
    }
    assert(distinct_ids(jn.users@));
    assert(jn.wf());

    // The rewritten node is well formed: labels changed only at `j`, where
    // the label kept its first byte.
    assert(l2[0] == l[0]);
    assert forall|i: int| 0 <= i < b2.mapping.len() implies (#[trigger] b2.mapping[i]).0@.len() > 0
        && b2.mapping[i].1.wf() by {
        if i != j {
            assert(b2.mapping@[i] == b.mapping@[i]);
        }
    }
    assert forall|i: int, i2: int|
        0 <= i < b2.mapping.len() && 0 <= i2 < b2.mapping.len() && i != i2 implies (
    #[trigger] b2.mapping[i]).0@[0] != (#[trigger] b2.mapping[i2]).0@[0] by {
        if i != j && i2 != j {
            assert(b2.mapping@[i] == b.mapping@[i]);
            assert(b2.mapping@[i2] == b.mapping@[i2]);
        } else if i == j {
            assert(b2.mapping@[i2] == b.mapping@[i2]);
            assert(b.mapping[i2].0@[0] != l[0]);
        } else {
            assert(b2.mapping@[i] == b.mapping@[i]);
            assert(b.mapping[i].0@[0] != l[0]);
        }
    }
    assert(b2.wf());

    // No edge of the original node matches `rp`: the only candidate by first
    // byte is `j`, whose label is too long or diverges at `k`.
    assert forall|m: int| 0 <= m < b.mapping.len() implies !edge_matches(
        (#[trigger] b.mapping[m]).0@,
        rp,
    ) by {
        if edge_matches(b.mapping[m].0@, rp) {
            if m != j {
                assert(b.mapping[m].0@[0] == rp[0]);
                assert(rp[0] == l[0]);
            } else {
                assert(l.len() <= rp.len());
                assert(rp[k] == l[k]);
            }
        }
    }
    assert forall|id: u64| !b.has(rp, id) by {
        lemma_no_route(b, rp, id);
    }

    // The one registered pair the rewrite adds is `(rp, uid)`.
    assert(edge_matches(l2, rp));
    assert forall|q: Seq<u8>, id: u64|
        #[trigger] b2.has(q, id) == (b.has(q, id) || (q == rp && id == uid)) by {
        if q.len() == 0 {
            assert(b2.has(q, id) == b.users@.contains(id));
            assert(b.has(q, id) == b.users@.contains(id));
            assert(q != rp);
        } else if edge_matches(l2, q) {
            lemma_has_route(b2, q, id, j);
            let q2 = q.skip(k);
            if q2.len() == 0 {
                // `q` is exactly the shortened label.
                assert(q =~= l2);
                assert(jn.has(q2, id) == jn.users@.contains(id));
                if k == rp.len() {
                    assert(q =~= rp);
                    assert(jn.users@.contains(id) == (id == uid)) by {
                        assert(jn.users@[0] == uid);
                    }
                } else {
                    assert(jn.users@.len() == 0);
                    assert(q != rp);
                    // The original node registers nothing at `l2` either:
                    // no edge of `b` matches it.
                    assert forall|m: int| 0 <= m < b.mapping.len() implies !edge_matches(
                        (#[trigger] b.mapping[m]).0@,
                        q,
                    ) by {
                        if edge_matches(b.mapping[m].0@, q) {
                            if m != j {
                                assert(b.mapping[m].0@[0] == q[0]);
                                assert(q[0] == l[0]);
                            } else {
                                assert(l.len() <= q.len());
                            }
                        }
                    }
                    lemma_no_route(b, q, id);
                }
            } else {
                if edge_matches(l.skip(k), q2) {
                    lemma_has_route(jn, q2, id, 0);
                    assert(q2.skip(l.len() - k) =~= q.skip(l.len() as int));
                    assert(edge_matches(l, q)) by {
                        assert forall|m: int| 0 <= m < l.len() implies l[m] == q[m] by {
                            if m < k {
                                assert(l[m] == l2[m]);
                            } else {
                                assert(l[m] == l.skip(k)[m - k]);
                                assert(q[m] == q2[m - k]);
                            }
                        }
                    }
                    lemma_has_route(b, q, id, j);
                    assert(b2.has(q, id) == b.has(q, id));
                    assert(q != rp) by {
                        if q == rp {
                            assert(edge_matches(l, rp));
                            if k == rp.len() {
                                assert(l.len() <= rp.len());
                            } else {
                                assert(rp[k] == l[k]);
                            }
                        }
                    }
                } else if k < rp.len() && edge_matches(rp.skip(k), q2) {
                    lemma_has_route(jn, q2, id, 1);
                    let leaf = jn.mapping@[1].1;
                    let q3 = q2.skip(rp.len() - k);
                    if q3.len() == 0 {
                        assert(q =~= rp) by {
                            assert(q.len() == rp.len());
                            assert forall|m: int| 0 <= m < q.len() implies q[m] == rp[m] by {
                                if m >= k {
                                    assert(q[m] == q2[m - k]);
                                    assert(rp[m] == rp.skip(k)[m - k]);
                                }
                            }
                        }
                        assert(leaf.has(q3, id) == leaf.users@.contains(id));
                        assert(leaf.users@.contains(id) == (id == uid)) by {
                            assert(leaf.users@[0] == uid);
                        }
                        assert(b2.has(q, id) == (id == uid));
                        assert(!b.has(rp, id));
                    } else {
                        assert(!leaf.has(q3, id));
                        assert(!b2.has(q, id));
                        assert(q.len() > rp.len());
                        assert(q != rp);
                        // `q` follows the new leaf's label, so it diverges
                        // from the old label at `k` and matches nothing in
                        // `b`.
                        assert forall|m: int| 0 <= m < b.mapping.len() implies !edge_matches(
                            (#[trigger] b.mapping[m]).0@,
                            q,
                        ) by {
                            if edge_matches(b.mapping[m].0@, q) {
                                if m != j {
                                    assert(b.mapping[m].0@[0] == q[0]);
                                    assert(q[0] == l[0]);
                                } else {
                                    assert(q[k] == l[k]);
                                    assert(q[k] == q2[0]);
                                    assert(q2[0] == rp.skip(k)[0]);
                                    assert(q2[0] == rp[k]);
                                }
                            }
                        }
                        lemma_no_route(b, q, id);
                    }
                } else {
                    // Nothing under the junction matches: `q` died at the
                    // split point, in both trees.
                    assert forall|m: int| 0 <= m < jn.mapping.len() implies !edge_matches(
                        (#[trigger] jn.mapping[m]).0@,
                        q2,
                    ) by {
                        if m == 0 {
                            assert(jn.mapping[m].0@ == l.skip(k));
                        } else {
                            assert(jn.mapping[m].0@ == rp.skip(k));
                        }
                    }
                    lemma_no_route(jn, q2, id);
                    assert(!b2.has(q, id));
                    assert forall|m: int| 0 <= m < b.mapping.len() implies !edge_matches(
                        (#[trigger] b.mapping[m]).0@,
                        q,
                    ) by {
                        if edge_matches(b.mapping[m].0@, q) {
                            if m != j {
                                assert(b.mapping[m].0@[0] == q[0]);
                                assert(q[0] == l[0]);
                            } else {
                                assert(edge_matches(l.skip(k), q2)) by {
                                    assert forall|m2: int|
                                        0 <= m2 < l.skip(k).len() implies l.skip(k)[m2] == q2[m2] by {
                                        assert(l.skip(k)[m2] == l[k + m2]);
                                        assert(q2[m2] == q[k + m2]);
                                    }
                                }
                            }
                        }
                    }
                    lemma_no_route(b, q, id);
                    assert(q != rp) by {
                        if q == rp {
                            if k == rp.len() {
                                assert(q2.len() == 0);
                            } else {
                                assert(edge_matches(rp.skip(k), q2)) by {
                                    assert(q2 =~= rp.skip(k));
                                }
                            }
                        }
                    }
                }
            }
        } else {
            // `q` does not follow the shortened label: untouched either way.
            if b2.has(q, id) {
                let i = choose|i: int|
                    0 <= i < b2.mapping.len() && edge_matches((#[trigger] b2.mapping[i]).0@, q)
                        && b2.mapping[i].1.has(q.skip(b2.mapping[i].0@.len() as int), id);
                assert(i != j);
                assert(b2.mapping@[i] == b.mapping@[i]);
                assert(b.has(q, id));
            }
            if b.has(q, id) {
                let i = choose|i: int|
                    0 <= i < b.mapping.len() && edge_matches((#[trigger] b.mapping[i]).0@, q)
                        && b.mapping[i].1.has(q.skip(b.mapping[i].0@.len() as int), id);
                assert(i != j) by {
                    if i == j {
                        assert(edge_matches(l2, q)) by {
                            assert forall|m: int| 0 <= m < l2.len() implies l2[m] == q[m] by {
                                assert(l2[m] == l[m]);
                            }
                        }
                    }
                }
                assert(b2.mapping@[i] == b.mapping@[i]);
                assert(b2.has(q, id));
            }
            assert(q != rp);
        }
    }
}


/// Inserts `remaining_path` for `user_id` under `branch`: descends along
/// fully matching labels; where the path ends inside a label or diverges
/// from it, splits that edge; where nothing matches, appends a fresh edge.
/// Returns true iff the tree changed, i.e. the pair was not registered yet.
pub fn write_branch(branch: &mut BulkSearchBranch, remaining_path: &[u8], user_id: u64) -> (r:
    bool)
    requires
        old(branch).wf(),
    ensures
        final(branch).wf(),
        r == !old(branch).has(remaining_path@, user_id),
        forall|q: Seq<u8>, id: u64|
            #[trigger] final(branch).has(q, id) == (old(branch).has(q, id) || (q
                == remaining_path@ && id == user_id)),
    decreases remaining_path@.len(),
{
    if remaining_path.is_empty() {
        let already = vec_contains_id(&branch.users, user_id);
        if !already {
            let ghost prev = branch.users@;
            branch.users.push(user_id);
            proof {
                lemma_push_id(prev, user_id);
                assert(branch.wf());
                assert forall|q: Seq<u8>, id: u64|
                    #[trigger] branch.has(q, id) == (old(branch).has(q, id) || (q
                        == remaining_path@ && id == user_id)) by {
                    if q.len() == 0 {
                        assert(q =~= remaining_path@);
                        assert(branch.users@ == prev.push(user_id));
                    } else {
                        assert(q != remaining_path@);
                        if branch.has(q, id) {
                            let i = choose|i: int|
                                0 <= i < branch.mapping.len() && edge_matches(
                                    (#[trigger] branch.mapping[i]).0@,
                                    q,
                                ) && branch.mapping[i].1.has(
                                    q.skip(branch.mapping[i].0@.len() as int),
                                    id,
                                );
                            assert(old(branch).has(q, id));
                        }
                        if old(branch).has(q, id) {
                            let i = choose|i: int|
                                0 <= i < old(branch).mapping.len() && edge_matches(
                                    (#[trigger] old(branch).mapping[i]).0@,
                                    q,
                                ) && old(branch).mapping[i].1.has(
                                    q.skip(old(branch).mapping[i].0@.len() as int),
                                    id,
                                );
                            assert(branch.has(q, id));
                        }
                    }
                }
            }
        } else {
            proof {
                assert forall|q: Seq<u8>, id: u64|
                    #[trigger] branch.has(q, id) == (old(branch).has(q, id) || (q
                        == remaining_path@ && id == user_id)) by {
                    if q == remaining_path@ && id == user_id {
                        assert(q.len() == 0);
                        assert(old(branch).has(q, id));
                    }
                }
            }
        }
        return !already;
    }
    let mut ei: usize = 0;
    while ei < branch.mapping.len()
        invariant
            branch.wf(),
            *branch == *old(branch),
            ei <= branch.mapping.len(),
            remaining_path@.len() > 0,
            forall|m: int|
                0 <= m < ei ==> (#[trigger] branch.mapping[m]).0@[0] != remaining_path@[0],
        decreases branch.mapping.len() - ei,
    {
        let l_len = branch.mapping[ei].0.len();
        let k = common_prefix_len(branch.mapping[ei].0.as_slice(), remaining_path);
        if k == 0 {
            proof {
                assert(branch.mapping@[ei as int].0@[0] != remaining_path@[0]);
            }
            ei += 1;
            continue ;
        }
        if k == l_len {
            // The whole label matches: descend into the child.
            let rest2 = slice_subrange(remaining_path, l_len, remaining_path.len());
            let ghost old_b = *branch;
            let ghost j = ei as int;
            let ghost l = old_b.mapping@[j].0@;
            let r = write_branch(&mut branch.mapping[ei].1, rest2, user_id);
            proof {
                assert(edge_matches(l, remaining_path@));
                lemma_update_child(old_b, *branch, j);
                lemma_has_route(old_b, remaining_path@, user_id, j);
                assert(rest2@ =~= remaining_path@.skip(l_len as int));
                assert forall|q: Seq<u8>, id: u64|
                    #[trigger] branch.has(q, id) == (old_b.has(q, id) || (q == remaining_path@
                        && id == user_id)) by {
                    if q.len() > 0 && edge_matches(l, q) {
                        lemma_has_route(old_b, q, id, j);
                        if q.skip(l_len as int) == rest2@ {
                            assert(q =~= remaining_path@) by {
                                assert forall|m: int| 0 <= m < q.len() implies q[m]
                                    == remaining_path@[m] by {
                                    if m >= l_len {
                                        assert(q[m] == q.skip(l_len as int)[m - l_len]);
                                        assert(remaining_path@[m] == remaining_path@.skip(
                                            l_len as int,
                                        )[m - l_len]);
                                    }
                                }
                            }
                        }
                        if q == remaining_path@ {
                            assert(q.skip(l_len as int) =~= rest2@);
                        }
                    } else {
                        if q == remaining_path@ {
                            assert(edge_matches(l, q));
                        }
                    }
                }
            }
            return r;
        }
        if k == remaining_path.len() {
            // The path ends inside this label: split the edge there and put
            // the subscriber on the junction.
            let ghost old_b = *branch;
            split_node(&mut branch.mapping[ei], k, user_id);
            proof {
                lemma_split_edge(old_b, *branch, ei as int, k as int, remaining_path@, user_id);
            }
            return true;
        }
        // The path diverges from this label after `k` bytes: split there and
        // hang a fresh leaf with the subscriber beside the old child.
        let ghost old_b = *branch;
        let l_suffix: Vec<u8> = vstd::slice::slice_to_vec(
            slice_subrange(branch.mapping[ei].0.as_slice(), k, l_len),
        );
        let r_suffix: Vec<u8> = vstd::slice::slice_to_vec(
            slice_subrange(remaining_path, k, remaining_path.len()),
        );
        let mut leaf_users: Vec<u64> = Vec::new();
        leaf_users.push(user_id);
        let mut jmap: Vec<(Vec<u8>, BulkSearchBranch)> = Vec::new();
        let e = &mut branch.mapping[ei];
        e.0.truncate(k);
        let mut old_child = BulkSearchBranch { mapping: Vec::new(), users: Vec::new() };
        core::mem::swap(&mut old_child, &mut e.1);
        jmap.push((l_suffix, old_child));
        jmap.push((r_suffix, BulkSearchBranch { mapping: Vec::new(), users: leaf_users }));
        let mut junction = BulkSearchBranch { mapping: jmap, users: Vec::new() };
        core::mem::swap(&mut e.1, &mut junction);
        proof {
            assert(branch.mapping@[ei as int].1.users@ =~= Seq::<u64>::empty());
            lemma_split_edge(old_b, *branch, ei as int, k as int, remaining_path@, user_id);
        }
        return true;
    }
    // No label shares a first byte with the path: append a fresh edge with a
    // leaf holding the subscriber.
    let ghost old_b = *branch;
    let ghost rp = remaining_path@;
    let mut leaf_users: Vec<u64> = Vec::new();
    leaf_users.push(user_id);
    let leaf = BulkSearchBranch { mapping: Vec::new(), users: leaf_users };
    let rp_vec: Vec<u8> = vstd::slice::slice_to_vec(remaining_path);
    branch.mapping.push((rp_vec, leaf));
    proof {
        let jn = old_b.mapping@.len() as int;
        assert(branch.mapping@[jn] == (rp_vec, leaf));
        assert(distinct_ids(leaf.users@));
        assert(leaf.wf());
        assert forall|i: int|
            0 <= i < branch.mapping.len() implies (#[trigger] branch.mapping[i]).0@.len() > 0
            && branch.mapping[i].1.wf() by {
            if i < jn {
                assert(branch.mapping@[i] == old_b.mapping@[i]);
            }
        }
        assert forall|i: int, i2: int|
            0 <= i < branch.mapping.len() && 0 <= i2 < branch.mapping.len() && i != i2 implies (
        #[trigger] branch.mapping[i]).0@[0] != (#[trigger] branch.mapping[i2]).0@[0] by {
            if i < jn && i2 < jn {
                assert(branch.mapping@[i] == old_b.mapping@[i]);
                assert(branch.mapping@[i2] == old_b.mapping@[i2]);
            } else if i == jn {
                assert(branch.mapping@[i2] == old_b.mapping@[i2]);
                assert(old_b.mapping[i2].0@[0] != rp[0]);
            } else {
                assert(branch.mapping@[i] == old_b.mapping@[i]);
                assert(old_b.mapping[i].0@[0] != rp[0]);
            }
        }
        assert(branch.wf());
        assert forall|m: int| 0 <= m < old_b.mapping.len() implies !edge_matches(
            (#[trigger] old_b.mapping[m]).0@,
            rp,
        ) by {
            if edge_matches(old_b.mapping[m].0@, rp) {
                assert(old_b.mapping[m].0@[0] == rp[0]);
            }
        }
        assert forall|id: u64| !old_b.has(rp, id) by {
            lemma_no_route(old_b, rp, id);
        }
        assert forall|q: Seq<u8>, id: u64|
            #[trigger] branch.has(q, id) == (old_b.has(q, id) || (q == rp && id == user_id)) by {
            if q.len() == 0 {
                assert(q != rp);
            } else if edge_matches(rp, q) {
                lemma_has_route(*branch, q, id, jn);
                let q2 = q.skip(rp.len() as int);
                if q2.len() == 0 {
                    assert(q =~= rp);
                    assert(leaf.has(q2, id) == leaf.users@.contains(id));
                    assert(leaf.users@.contains(id) == (id == user_id)) by {
                        assert(leaf.users@[0] == user_id);
                    }
                } else {
                    assert(!leaf.has(q2, id));
                    assert(q.len() > rp.len());
                    assert(q != rp);
                    assert forall|m: int| 0 <= m < old_b.mapping.len() implies !edge_matches(
                        (#[trigger] old_b.mapping[m]).0@,
                        q,
                    ) by {
                        if edge_matches(old_b.mapping[m].0@, q) {
                            assert(old_b.mapping[m].0@[0] == q[0]);
                            assert(q[0] == rp[0]);
                        }
                    }
                    lemma_no_route(old_b, q, id);
                }
            } else {
                assert(q != rp);
                if branch.has(q, id) {
                    let i = choose|i: int|
                        0 <= i < branch.mapping.len() && edge_matches(
                            (#[trigger] branch.mapping[i]).0@,
                            q,
                        ) && branch.mapping[i].1.has(q.skip(branch.mapping[i].0@.len() as int), id);
                    assert(i != jn);
                    assert(branch.mapping@[i] == old_b.mapping@[i]);
                    assert(old_b.has(q, id));
                }
                if old_b.has(q, id) {
                    let i = choose|i: int|
                        0 <= i < old_b.mapping.len() && edge_matches(
                            (#[trigger] old_b.mapping[i]).0@,
                            q,
                        ) && old_b.mapping[i].1.has(q.skip(old_b.mapping[i].0@.len() as int), id);
                    assert(branch.mapping@[i] == old_b.mapping@[i]);
                    assert(branch.has(q, id));
                }
            }
        }
    }
    true
}


/// Finds the branch that matches exactly `remaining_path`, following only
/// whole-label matches and never creating or splitting nodes, and removes
/// every entry for `user_id` from that branch's subscriber list.  Returns
/// true iff such a branch exists, whether or not the id was on it.
pub fn find_mut_branch(branch: &mut BulkSearchBranch, remaining_path: &[u8], user_id: u64) -> (r:
    bool)
    requires
        old(branch).wf(),
    ensures
        final(branch).wf(),
        r == old(branch).has_node(remaining_path@),
        forall|q: Seq<u8>, id: u64|
            #[trigger] final(branch).has(q, id) == (old(branch).has(q, id) && !(q
                == remaining_path@ && id == user_id)),
    decreases remaining_path@.len(),
{
    if remaining_path.is_empty() {
        let mut kept: Vec<u64> = Vec::new();
        let mut i: usize = 0;
        while i < branch.users.len()
            invariant
                branch.wf(),
                *branch == *old(branch),
                i <= branch.users@.len(),
                distinct_ids(kept@),
                forall|id: u64|
                    kept@.contains(id) == (branch.users@.take(i as int).contains(id) && id
                        != user_id),
            decreases branch.users@.len() - i,
        {
            let u = branch.users[i];
            proof {
                assert(branch.users@.take(i + 1) =~= branch.users@.take(i as int).push(u));
                if !kept@.contains(u) && u != user_id {
                    lemma_push_id(kept@, u);
                }
                if kept@.contains(u) {
                    let m = choose|m: int|
                        0 <= m < branch.users@.take(i as int).len() && branch.users@.take(
                            i as int,
                        )[m] == u;
                    assert(branch.users@[m] == branch.users@[i as int]);
                }
            }
            if u != user_id {
                kept.push(u);
            }
            i += 1;
        }
        proof {
            assert(branch.users@.take(branch.users@.len() as int) =~= branch.users@);
        }
        branch.users = kept;
        proof {
            assert(branch.mapping == old(branch).mapping);
            assert(branch.wf());
            assert forall|q: Seq<u8>, id: u64|
                #[trigger] branch.has(q, id) == (old(branch).has(q, id) && !(q == remaining_path@
                    && id == user_id)) by {
                if q.len() == 0 {
                    assert(q =~= remaining_path@);
                } else {
                    assert(q != remaining_path@);
                    if branch.has(q, id) {
                        let m = choose|m: int|
                            0 <= m < branch.mapping.len() && edge_matches(
                                (#[trigger] branch.mapping[m]).0@,
                                q,
                            ) && branch.mapping[m].1.has(q.skip(branch.mapping[m].0@.len() as int), id);
                        assert(old(branch).has(q, id));
                    }
                    if old(branch).has(q, id) {
                        let m = choose|m: int|
                            0 <= m < old(branch).mapping.len() && edge_matches(
                                (#[trigger] old(branch).mapping[m]).0@,
                                q,
                            ) && old(branch).mapping[m].1.has(
                                q.skip(old(branch).mapping[m].0@.len() as int),
                                id,
                            );
                        assert(branch.has(q, id));
                    }
                }
            }
        }
        return true;
    }
    let je = find_edge(branch, remaining_path);
    match je {
        None => {
            proof {
                assert forall|q: Seq<u8>, id: u64|
                    #[trigger] branch.has(q, id) == (old(branch).has(q, id) && !(q
                        == remaining_path@ && id == user_id)) by {
                    if q == remaining_path@ {
                        lemma_no_route(*branch, remaining_path@, id);
                    }
                }
                lemma_no_route(*branch, remaining_path@, 0);
            }
            false
        },
        Some(j) => {
            let l_len = branch.mapping[j].0.len();
            let rest2 = slice_subrange(remaining_path, l_len, remaining_path.len());
            let ghost old_b = *branch;
            let ghost jj = j as int;
            let ghost l = old_b.mapping@[jj].0@;
            let ghost rpseq = remaining_path@;
            let r = find_mut_branch(&mut branch.mapping[j].1, rest2, user_id);
            proof {
                assert(rest2@ =~= rpseq.skip(l_len as int));
                lemma_update_child(old_b, *branch, jj);
                lemma_has_route(old_b, rpseq, 0, jj);
                assert forall|q: Seq<u8>, id: u64|
                    #[trigger] branch.has(q, id) == (old_b.has(q, id) && !(q == rpseq && id
                        == user_id)) by {
                    if q.len() > 0 && edge_matches(l, q) {
                        lemma_has_route(old_b, q, id, jj);
                        if q.skip(l_len as int) == rest2@ {
                            assert(q =~= rpseq) by {
                                assert forall|m: int| 0 <= m < q.len() implies q[m] == rpseq[m] by {
                                    if m >= l_len {
                                        assert(q[m] == q.skip(l_len as int)[m - l_len]);
                                        assert(rpseq[m] == rpseq.skip(l_len as int)[m - l_len]);
                                    }
                                }
                            }
                        }
                        if q == rpseq {
                            assert(q.skip(l_len as int) =~= rest2@);
                        }
                    } else {
                        if q == rpseq {
                            assert(edge_matches(l, q));
                        }
                    }
                }
            }
            r
        },
    }
}


/// `p` occurs as a contiguous substring of `text` at position `i`.
pub open spec fn occurs_at(text: Seq<u8>, p: Seq<u8>, i: int) -> bool {
    0 <= i && i + p.len() <= text.len() && forall|m: int| 0 <= m < p.len() ==> p[m] == text[i + m]
}

/// The substring index: a fixed 256-entry root array indexed by a phrase's
/// first byte, each entry the radix branch for the phrases that begin with
/// that byte.
pub struct BulkSearchTree {
    pub first_byte: Vec<BulkSearchBranch>,
}

impl BulkSearchTree {
    /// The root array has exactly 256 entries at all times, and every branch
    /// under it satisfies the Patricia invariants.
    pub open spec fn wf(self) -> bool {
        &&& self.first_byte@.len() == 256
        &&& forall|i: int| 0 <= i < 256 ==> (#[trigger] self.first_byte@[i]).wf()
    }

    /// The pair `(phrase, id)` is registered: `phrase` was added for the
    /// subscriber `id` (and not removed since).
    pub open spec fn spec_has(self, phrase: Seq<u8>, id: u64) -> bool {
        phrase.len() > 0 && self.first_byte@[phrase[0] as int].has(phrase.skip(1), id)
    }

    /// Consuming `phrase` from the root lands exactly on a node.
    pub open spec fn spec_has_node(self, phrase: Seq<u8>) -> bool {
        phrase.len() > 0 && self.first_byte@[phrase[0] as int].has_node(phrase.skip(1))
    }

    /// Some registered phrase of `id` occurs as a contiguous substring of
    /// `text`.
    pub open spec fn matches_text(self, text: Seq<u8>, id: u64) -> bool {
        exists|p: Seq<u8>, i: int|
            #![trigger self.spec_has(p, id), occurs_at(text, p, i)]
            self.spec_has(p, id) && occurs_at(text, p, i)
    }

    /// A walk started at one of the first `upto` cursor positions of `text`
    /// reports `id`.
    pub open spec fn matched_upto(self, text: Seq<u8>, upto: int, id: u64) -> bool {
        exists|k: int|
            0 <= k < upto && k < text.len() && #[trigger] reach(
                self.first_byte@[text[k] as int],
                text.skip(k + 1),
                id,
            )
    }

    /// Creates the empty index: 256 empty root branches, nothing registered.
    pub fn new() -> (r: Self)
        ensures
            r.wf(),
            forall|p: Seq<u8>, id: u64| !(#[trigger] r.spec_has(p, id)),
    {
        let mut v: Vec<BulkSearchBranch> = Vec::new();
        let mut i: usize = 0;
        while i < 256
            invariant
                i == v@.len(),
                i <= 256,
                forall|m: int|
                    0 <= m < i ==> (#[trigger] v@[m]).wf() && v@[m].users@.len() == 0
                        && v@[m].mapping@.len() == 0,
            decreases 256 - i,
        {
            v.push(BulkSearchBranch { mapping: Vec::new(), users: Vec::new() });
            i += 1;
        }
        let r = BulkSearchTree { first_byte: v };
        proof {
            assert forall|p: Seq<u8>, id: u64| !(#[trigger] r.spec_has(p, id)) by {
                if p.len() > 0 {
                    let b = r.first_byte@[p[0] as int];
                    assert(!b.has(p.skip(1), id));
                }
            }
        }
        r
    }
}


impl BulkSearchTree {
    /// Adds the phrase `subtext` for the subscriber `user_id`.  An empty
    /// phrase is rejected.  Returns true iff the index changed, i.e. the
    /// phrase is non-empty and was not yet registered for this subscriber;
    /// afterwards exactly the pair `(subtext, user_id)` is registered in
    /// addition to what was registered before.
    pub fn add_item(&mut self, subtext: &[u8], user_id: u64) -> (r: bool)
        requires
            old(self).wf(),
        ensures
            final(self).wf(),
            r == (subtext@.len() > 0 && !old(self).spec_has(subtext@, user_id)),
            forall|p: Seq<u8>, id: u64|
                #[trigger] final(self).spec_has(p, id) == (old(self).spec_has(p, id) || (
                subtext@.len() > 0 && p == subtext@ && id == user_id)),
    {
        if subtext.is_empty() {
            return false;
        }
        let b0 = subtext[0];
        let rest = slice_subrange(subtext, 1, subtext.len());
        let ghost old_t = *self;
        let r = write_branch(&mut self.first_byte[b0 as usize], rest, user_id);
        proof {
            assert(rest@ =~= subtext@.skip(1));
            assert forall|i: int| 0 <= i < 256 implies (#[trigger] self.first_byte@[i]).wf() by {
                if i != b0 as int {
                    assert(self.first_byte@[i] == old_t.first_byte@[i]);
                }
            }
            assert forall|p: Seq<u8>, id: u64|
                #[trigger] self.spec_has(p, id) == (old_t.spec_has(p, id) || (p == subtext@ && id
                    == user_id)) by {
                if p.len() > 0 {
                    if p[0] == b0 {
                        if p.skip(1) == rest@ {
                            assert(p =~= subtext@) by {
                                assert forall|m: int| 0 <= m < p.len() implies p[m]
                                    == subtext@[m] by {
                                    if m >= 1 {
                                        assert(p[m] == p.skip(1)[m - 1]);
                                        assert(subtext@[m] == subtext@.skip(1)[m - 1]);
                                    }
                                }
                            }
                        }
                        if p == subtext@ {
                            assert(p.skip(1) =~= rest@);
                        }
                    } else {
                        assert(self.first_byte@[p[0] as int] == old_t.first_byte@[p[0] as int]);
                        if p == subtext@ {
                            assert(p[0] == subtext@[0]);
                        }
                    }
                } else {
                    if p == subtext@ {
                        assert(p.len() == subtext@.len());
                    }
                }
            }
        }
        r
    }

    /// Removes the phrase `subtext` for the subscriber `user_id`, navigating
    /// exactly as insertion does and never creating or splitting nodes.  An
    /// empty phrase is rejected.  Returns true iff a node is reached by
    /// consuming exactly the phrase; afterwards exactly the pair
    /// `(subtext, user_id)` is no longer registered, and nothing else
    /// changed.  The tree is not compacted: empty nodes remain.
    pub fn remove_item(&mut self, subtext: &[u8], user_id: u64) -> (r: bool)
        requires
            old(self).wf(),
        ensures
            final(self).wf(),
            r == old(self).spec_has_node(subtext@),
            forall|p: Seq<u8>, id: u64|
                #[trigger] final(self).spec_has(p, id) == (old(self).spec_has(p, id) && !(p
                    == subtext@ && id == user_id)),
    {
        if subtext.is_empty() {
            proof {
                assert forall|p: Seq<u8>, id: u64|
                    #[trigger] self.spec_has(p, id) == (old(self).spec_has(p, id) && !(p
                        == subtext@ && id == user_id)) by {
                    if p == subtext@ {
                        assert(p.len() == 0);
                    }
                }
            }
            return false;
        }
        let b0 = subtext[0];
        let rest = slice_subrange(subtext, 1, subtext.len());
        let ghost old_t = *self;
        let r = find_mut_branch(&mut self.first_byte[b0 as usize], rest, user_id);
        proof {
            assert(rest@ =~= subtext@.skip(1));
            assert forall|i: int| 0 <= i < 256 implies (#[trigger] self.first_byte@[i]).wf() by {
                if i != b0 as int {
                    assert(self.first_byte@[i] == old_t.first_byte@[i]);
                }
            }
            assert forall|p: Seq<u8>, id: u64|
                #[trigger] self.spec_has(p, id) == (old_t.spec_has(p, id) && !(p == subtext@ && id
                    == user_id)) by {
                if p.len() > 0 {
                    if p[0] == b0 {
                        if p.skip(1) == rest@ {
                            assert(p =~= subtext@) by {
                                assert forall|m: int| 0 <= m < p.len() implies p[m]
                                    == subtext@[m] by {
                                    if m >= 1 {
                                        assert(p[m] == p.skip(1)[m - 1]);
                                        assert(subtext@[m] == subtext@.skip(1)[m - 1]);
                                    }
                                }
                            }
                        }
                        if p == subtext@ {
                            assert(p.skip(1) =~= rest@);
                        }
                    } else {
                        assert(self.first_byte@[p[0] as int] == old_t.first_byte@[p[0] as int]);
                        if p == subtext@ {
                            assert(p[0] == subtext@[0]);
                        }
                    }
                } else {
                    if p == subtext@ {
                        assert(p.len() == subtext@.len());
                    }
                }
            }
        }
        r
    }

    /// Reports every subscriber at least one of whose registered phrases
    /// occurs as a contiguous substring of `text` — all of them
    /// (completeness), nothing else (soundness), each at most once (the
    /// result is duplicate free).
    pub fn find_all_matches(&self, text: &[u8]) -> (r: Vec<u64>)
        requires
            self.wf(),
        ensures
            forall|id: u64| #[trigger] r@.contains(id) == self.matches_text(text@, id),
            distinct_ids(r@),
    {
        let mut users: Vec<u64> = Vec::new();
        let mut consumed_users: HashSetWithView<u64> = HashSetWithView::new();
        let mut i: usize = 0;
        while i < text.len()
            invariant
                self.wf(),
                i <= text@.len(),
                distinct_ids(users@),
                forall|id: u64| users@.contains(id) == consumed_users@.contains(id),
                forall|id: u64|
                    consumed_users@.contains(id) == self.matched_upto(text@, i as int, id),
            decreases text@.len() - i,
        {
            let b = text[i];
            let rest = slice_subrange(text, i + 1, text.len());
            let ghost cpre = consumed_users@;
            walk_branch(&self.first_byte[b as usize], rest, &mut consumed_users, &mut users);
            proof {
                assert(rest@ =~= text@.skip(i + 1));
                assert forall|id: u64|
                    consumed_users@.contains(id) == self.matched_upto(text@, i + 1, id) by {
                    assert(consumed_users@.contains(id) == (cpre.contains(id) || reach(
                        self.first_byte@[b as int],
                        rest@,
                        id,
                    )));
                    assert(cpre.contains(id) == self.matched_upto(text@, i as int, id));
                    if self.matched_upto(text@, i + 1, id) {
                        let k = choose|k: int|
                            0 <= k < i + 1 && k < text@.len() && #[trigger] reach(
                                self.first_byte@[text@[k] as int],
                                text@.skip(k + 1),
                                id,
                            );
                        if k == i {
                            assert(reach(self.first_byte@[b as int], rest@, id));
                        } else {
                            assert(self.matched_upto(text@, i as int, id));
                        }
                    }
                    if self.matched_upto(text@, i as int, id) {
                        let k = choose|k: int|
                            0 <= k < i && k < text@.len() && #[trigger] reach(
                                self.first_byte@[text@[k] as int],
                                text@.skip(k + 1),
                                id,
                            );
                        assert(self.matched_upto(text@, i + 1, id));
                    }
                    if reach(self.first_byte@[b as int], rest@, id) {
                        assert(reach(self.first_byte@[text@[i as int] as int], text@.skip(i + 1), id));
                        assert(self.matched_upto(text@, i + 1, id));
                    }
                }
            }
            i += 1;
        }
        proof {
            assert forall|id: u64| users@.contains(id) == self.matches_text(text@, id) by {
                lemma_matched_full(*self, text@, id);
            }
        }
        users
    }
}

/// A walk from every cursor position reports exactly the subscribers one of
/// whose registered phrases occurs somewhere in the text.
pub proof fn lemma_matched_full(t: BulkSearchTree, text: Seq<u8>, id: u64)
    requires
        t.wf(),
    ensures
        t.matched_upto(text, text.len() as int, id) == t.matches_text(text, id),
{
    if t.matched_upto(text, text.len() as int, id) {
        let k = choose|k: int|
            0 <= k < text.len() && #[trigger] reach(
                t.first_byte@[text[k] as int],
                text.skip(k + 1),
                id,
            );
        let q = choose|q: Seq<u8>|
            is_prefix(q, text.skip(k + 1)) && #[trigger] t.first_byte@[text[k] as int].has(q, id);
        let p = seq![text[k]] + q;
        assert(p[0] == text[k]);
        assert(p.skip(1) =~= q);
        assert(t.spec_has(p, id));
        assert(occurs_at(text, p, k)) by {
            assert forall|m: int| 0 <= m < p.len() implies p[m] == text[k + m] by {
                if m >= 1 {
                    assert(p[m] == q[m - 1]);
                    assert(q[m - 1] == text.skip(k + 1)[m - 1]);
                }
            }
        }
        assert(t.matches_text(text, id));
    }
    if t.matches_text(text, id) {
        let (p, k) = choose|p: Seq<u8>, k: int|
            #![trigger t.spec_has(p, id), occurs_at(text, p, k)]
            t.spec_has(p, id) && occurs_at(text, p, k);
        let q = p.skip(1);
        assert(text[k] == p[0]);
        assert(is_prefix(q, text.skip(k + 1))) by {
            assert forall|m: int| 0 <= m < q.len() implies q[m] == text.skip(k + 1)[m] by {
                assert(q[m] == p[m + 1]);
                assert(p[m + 1] == text[k + m + 1]);
            }
        }
        assert(t.first_byte@[text[k] as int].has(q, id));
        assert(reach(t.first_byte@[text[k] as int], text.skip(k + 1), id));
        assert(k < text.len());
        assert(t.matched_upto(text, text.len() as int, id));
    }
}


/// Insert idempotence: adding the same phrase for the same subscriber twice
/// in a row makes the second call return false and leave the registrations
/// unchanged.  The hypotheses are the contract of `add_item` for each of the
/// two calls, on trees `t0 -> t1 -> t2`.
pub proof fn lemma_add_idempotent(
    t0: BulkSearchTree,
    t1: BulkSearchTree,
    t2: BulkSearchTree,
    phrase: Seq<u8>,
    id: u64,
    r2: bool,
)
    requires
        phrase.len() > 0,
        forall|p: Seq<u8>, i: u64|
            #[trigger] t1.spec_has(p, i) == (t0.spec_has(p, i) || (p == phrase && i == id)),
        r2 == (phrase.len() > 0 && !t1.spec_has(phrase, id)),
        forall|p: Seq<u8>, i: u64|
            #[trigger] t2.spec_has(p, i) == (t1.spec_has(p, i) || (p == phrase && i == id)),
    ensures
        r2 == false,
        forall|p: Seq<u8>, i: u64| #[trigger] t2.spec_has(p, i) == t1.spec_has(p, i),
{
    assert(t1.spec_has(phrase, id));
}

/// Remove after add: on a tree with nothing registered, adding a phrase for
/// a subscriber and then removing it leaves the subscriber matching no text
/// at all.  The hypotheses are the contracts of `add_item` and `remove_item`
/// on trees `t0 -> t1 -> t2`.
pub proof fn lemma_remove_after_add(
    t0: BulkSearchTree,
    t1: BulkSearchTree,
    t2: BulkSearchTree,
    phrase: Seq<u8>,
    id: u64,
    text: Seq<u8>,
)
    requires
        forall|p: Seq<u8>, i: u64| !(#[trigger] t0.spec_has(p, i)),
        forall|p: Seq<u8>, i: u64|
            #[trigger] t1.spec_has(p, i) == (t0.spec_has(p, i) || (phrase.len() > 0 && p == phrase
                && i == id)),
        forall|p: Seq<u8>, i: u64|
            #[trigger] t2.spec_has(p, i) == (t1.spec_has(p, i) && !(p == phrase && i == id)),
    ensures
        !t2.matches_text(text, id),
{
    if t2.matches_text(text, id) {
        let (p, k) = choose|p: Seq<u8>, k: int|
            #![trigger t2.spec_has(p, id), occurs_at(text, p, k)]
            t2.spec_has(p, id) && occurs_at(text, p, k);
        assert(t2.spec_has(p, id));
        assert(!t1.spec_has(p, id) || (p == phrase && id == id));
    }
}

/// Independence: when the registrations of a tree are exactly the union of
/// the registrations of two trees, a text matches a subscriber in it exactly
/// when it does in one of the two.  In particular, for subscribers with
/// disjoint phrase sets, querying the shared tree gives the union of the
/// single-subscriber results.
pub proof fn lemma_union_matches(
    t: BulkSearchTree,
    t1: BulkSearchTree,
    t2: BulkSearchTree,
    text: Seq<u8>,
    id: u64,
)
    requires
        forall|p: Seq<u8>, i: u64|
            #[trigger] t.spec_has(p, i) == (t1.spec_has(p, i) || t2.spec_has(p, i)),
    ensures
        t.matches_text(text, id) == (t1.matches_text(text, id) || t2.matches_text(text, id)),
{
    if t.matches_text(text, id) {
        let (p, k) = choose|p: Seq<u8>, k: int|
            #![trigger t.spec_has(p, id), occurs_at(text, p, k)]
            t.spec_has(p, id) && occurs_at(text, p, k);
        if t1.spec_has(p, id) {
            assert(t1.matches_text(text, id));
        } else {
            assert(t2.spec_has(p, id));
            assert(t2.matches_text(text, id));
        }
    }
    if t1.matches_text(text, id) {
        let (p, k) = choose|p: Seq<u8>, k: int|
            #![trigger t1.spec_has(p, id), occurs_at(text, p, k)]
            t1.spec_has(p, id) && occurs_at(text, p, k);
        assert(t.spec_has(p, id));
        assert(t.matches_text(text, id));
    }
    if t2.matches_text(text, id) {
        let (p, k) = choose|p: Seq<u8>, k: int|
            #![trigger t2.spec_has(p, id), occurs_at(text, p, k)]
            t2.spec_has(p, id) && occurs_at(text, p, k);
        assert(t.spec_has(p, id));
        assert(t.matches_text(text, id));
    }
}

/// Split preservation: after any insert — including one that splits an edge —
/// every previously registered pair still matches every text it matched
/// before.  The hypothesis is the contract of `add_item` on trees
/// `t1 -> t2`.
pub proof fn lemma_add_preserves_matches(
    t1: BulkSearchTree,
    t2: BulkSearchTree,
    phrase: Seq<u8>,
    id: u64,
    text: Seq<u8>,
    s: u64,
)
    requires
        forall|p: Seq<u8>, i: u64|
            #[trigger] t2.spec_has(p, i) == (t1.spec_has(p, i) || (phrase.len() > 0 && p == phrase
                && i == id)),
        t1.matches_text(text, s),
    ensures
        t2.matches_text(text, s),
{
    let (p, k) = choose|p: Seq<u8>, k: int|
        #![trigger t1.spec_has(p, s), occurs_at(text, p, k)]
        t1.spec_has(p, s) && occurs_at(text, p, k);
    assert(t2.spec_has(p, s));
    assert(t2.matches_text(text, s));
}

/// The Patricia invariant, spelled out: at a well-formed branch all edge
/// labels are non-empty and no two of them share a non-empty common prefix.
pub proof fn lemma_patricia(b: BulkSearchBranch, i: int, j: int, k: int)
    requires
        b.wf(),
        0 <= i < b.mapping.len(),
        0 <= j < b.mapping.len(),
        i != j,
        0 < k <= b.mapping@[i].0@.len(),
        k <= b.mapping@[j].0@.len(),
    ensures
        b.mapping@[i].0@.len() > 0,
        b.mapping@[j].0@.len() > 0,
        b.mapping@[i].0@.take(k) != b.mapping@[j].0@.take(k),
{
    if b.mapping@[i].0@.take(k) == b.mapping@[j].0@.take(k) {
        assert(b.mapping@[i].0@.take(k)[0] == b.mapping@[i].0@[0]);
        assert(b.mapping@[j].0@.take(k)[0] == b.mapping@[j].0@[0]);
    }
}

/// Root fanout: a well-formed index has exactly 256 root entries, one per
/// possible first byte; `new` establishes this and every operation keeps it.
pub proof fn lemma_root_fanout(t: BulkSearchTree)
    requires
        t.wf(),
    ensures
        t.first_byte@.len() == 256,
{
}

} // verus!

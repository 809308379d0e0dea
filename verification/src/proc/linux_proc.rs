//! Building the process tree from the flat records of a `/proc` scan, and
//! parsing one textual `stat` record into a flat `ProcessStat`.

use vstd::prelude::*;
use vstd::set_lib::lemma_len_subset;
use vstd::string::StrSliceExecFns;
use vstd::string::StringExecFns;
use crate::proc::{Process, ProcessStat};
use crate::text::{
    is_digit_seq_up_to, parse_i32, parse_u32, parse_u64, spec_digits_val, spec_i32_of,
    spec_strip_leading, spec_strip_trailing, strip_leading, strip_trailing,
};

verus! {

broadcast use vstd::seq_lib::seq_to_set_is_finite;

pub const LINUX_PROC_DIR: &'static str = "/proc";

/// The reserved name of the synthetic root node, which stands for "has no
/// known parent in this snapshot".
pub const ROOT_PROC_NAME: &'static str = "?";

// ---------------------------------------------------------------------------
// The mathematical model of a record collection and of a finished tree.
// ---------------------------------------------------------------------------
/// Index of the last record with pid `q`, or -1 when there is none. The last
/// occurrence is the one that counts: later records overwrite earlier ones.
pub open spec fn idx_of(records: Seq<ProcessStat>, q: u32) -> int
    decreases records.len(),
{
    if records.len() == 0 {
        -1
    } else if records.last().pid == q {
        records.len() - 1
    } else {
        idx_of(records.drop_last(), q)
    }
}

/// Whether some record carries pid `q`.
pub open spec fn has_pid(records: Seq<ProcessStat>, q: u32) -> bool {
    idx_of(records, q) >= 0
}

/// The record that owns pid `q`: the last one that carries it.
pub open spec fn rec_of(records: Seq<ProcessStat>, q: u32) -> ProcessStat {
    records[idx_of(records, q)]
}

pub proof fn lemma_idx_of(records: Seq<ProcessStat>, q: u32)
    ensures
        has_pid(records, q) ==> {
            &&& 0 <= idx_of(records, q) < records.len()
            &&& records[idx_of(records, q)].pid == q
            &&& forall|j: int| idx_of(records, q) < j < records.len() ==> records[j].pid != q
        },
        !has_pid(records, q) ==> forall|j: int| 0 <= j < records.len() ==> records[j].pid != q,
    decreases records.len(),
{
    if records.len() > 0 {
        lemma_idx_of(records.drop_last(), q);
        assert(forall|j: int|
            0 <= j < records.len() - 1 ==> records[j] == records.drop_last()[j]);
    }
}

/// The pids of the records, in order.
pub open spec fn rec_pids(records: Seq<ProcessStat>) -> Seq<u32> {
    records.map_values(|r: ProcessStat| r.pid)
}

/// A well-formed snapshot: every pid occurs once, and none is 0, which is
/// reserved for the synthetic root.
pub open spec fn wf_records(records: Seq<ProcessStat>) -> bool {
    &&& rec_pids(records).no_duplicates()
    &&& forall|i: int| 0 <= i < records.len() ==> (#[trigger] records[i]).pid != 0
}

/// The pids of the records whose parent is `ppid`, in input order: the pids
/// of the children that a node with pid `ppid` must have.
pub open spec fn child_pids(records: Seq<ProcessStat>, ppid: u32) -> Seq<u32>
    decreases records.len(),
{
    if records.len() == 0 {
        Seq::empty()
    } else {
        let rest = child_pids(records.drop_last(), ppid);
        if records.last().ppid == ppid {
            rest.push(records.last().pid)
        } else {
            rest
        }
    }
}

/// The pids of a sequence of nodes, in order.
pub open spec fn pids_of_nodes(nodes: Seq<Process>) -> Seq<u32> {
    nodes.map_values(|c: Process| c.stat.pid)
}

/// A node faithfully reflects the records: its own record is the one owning
/// its pid, its name is that record's name, its children are exactly the
/// records whose parent it is, in input order, and so on recursively.
pub open spec fn node_ok(records: Seq<ProcessStat>, n: Process) -> bool
    decreases n,
{
    &&& has_pid(records, n.stat.pid)
    &&& n.stat == rec_of(records, n.stat.pid)
    &&& n.name@ == n.stat.name@
    &&& pids_of_nodes(n.children@) == child_pids(records, n.stat.pid)
    &&& forall|i: int| 0 <= i < n.children@.len() ==> node_ok(records, #[trigger] n.children@[i])
}

pub proof fn lemma_child_pids_members(records: Seq<ProcessStat>, p: u32, q: u32)
    ensures
        child_pids(records, p).contains(q) <==> exists|i: int|
            0 <= i < records.len() && records[i].ppid == p && (#[trigger] records[i]).pid == q,
    decreases records.len(),
{
    let n = records.len() as int;
    if n > 0 {
        let rl = records.drop_last();
        lemma_child_pids_members(rl, p, q);
        assert(forall|j: int| 0 <= j < n - 1 ==> records[j] == rl[j]);
        let rest = child_pids(rl, p);
        let cur = child_pids(records, p);
        if cur.contains(q) {
            let t = choose|t: int| 0 <= t < cur.len() && cur[t] == q;
            if t < rest.len() {
                assert(rest.contains(q));
                let i = choose|i: int| 0 <= i < rl.len() && rl[i].ppid == p && rl[i].pid == q;
                assert(records[i].ppid == p && records[i].pid == q);
            } else {
                assert(records.last().ppid == p && records.last().pid == q);
            }
        }
        if exists|i: int| 0 <= i < n && records[i].ppid == p && (#[trigger] records[i]).pid == q {
            let i = choose|i: int|
                0 <= i < n && records[i].ppid == p && (#[trigger] records[i]).pid == q;
            if i < n - 1 {
                assert(rl[i].ppid == p && rl[i].pid == q);
                assert(rest.contains(q));
                let t = choose|t: int| 0 <= t < rest.len() && rest[t] == q;
                assert(cur[t] == q);
            } else {
                assert(cur.last() == q);
            }
            assert(cur.contains(q));
        }
    }
}

/// A faithful node's children, taken by pid, are exactly the records whose
/// reported parent pid is the node's own pid — no more, no fewer.
pub proof fn lemma_node_children_exact(records: Seq<ProcessStat>, n: Process, q: u32)
    requires
        node_ok(records, n),
    ensures
        pids_of_nodes(n.children@).contains(q) <==> exists|i: int|
            0 <= i < records.len() && records[i].ppid == n.stat.pid && (#[trigger] records[i]).pid
                == q,
{
    lemma_child_pids_members(records, n.stat.pid, q);
}

// ---------------------------------------------------------------------------
// Well-formed snapshots allow no cycle reachable from the root: a chain of
// pids descending from 0 never revisits a pid, so it is no longer than the
// record count. That bounds the builder's recursion.
// ---------------------------------------------------------------------------
/// `path` is the chain of pids walked from the synthetic root down to the
/// node whose children carry parent pid `ppid`.
pub open spec fn spec_chain(records: Seq<ProcessStat>, path: Seq<u32>, ppid: u32) -> bool {
    &&& path.no_duplicates()
    &&& forall|k: int| 0 <= k < path.len() ==> has_pid(records, #[trigger] path[k])
    &&& ppid == if path.len() == 0 {
        0u32
    } else {
        path.last()
    }
    &&& forall|k: int|
        0 <= k < path.len() ==> rec_of(records, #[trigger] path[k]).ppid == (if k == 0 {
            0u32
        } else {
            path[k - 1]
        })
}

pub proof fn lemma_chain_len(records: Seq<ProcessStat>, path: Seq<u32>, ppid: u32)
    requires
        wf_records(records),
        spec_chain(records, path, ppid),
    ensures
        path.len() <= records.len(),
{
    let pids = rec_pids(records);
    assert forall|x: u32| path.to_set().contains(x) implies pids.to_set().contains(x) by {
        let k = choose|k: int| 0 <= k < path.len() && path[k] == x;
        lemma_idx_of(records, x);
        assert(pids[idx_of(records, x)] == x);
        assert(pids.contains(x));
    }
    assert(path.to_set().subset_of(pids.to_set()));
    path.unique_seq_to_set();
    pids.lemma_cardinality_of_set();
    lemma_len_subset(path.to_set(), pids.to_set());
}

/// Under a well-formed snapshot, each record's own index is the index that
/// `idx_of` assigns to its pid.
pub proof fn lemma_wf_idx(records: Seq<ProcessStat>, i: int)
    requires
        wf_records(records),
        0 <= i < records.len(),
    ensures
        idx_of(records, records[i].pid) == i,
{
    let q = records[i].pid;
    lemma_idx_of(records, q);
    assert(rec_pids(records)[i] == q);
    let w = idx_of(records, q);
    assert(has_pid(records, q));
    if w != i {
        assert(rec_pids(records)[w] == q);
    }
}

/// A record whose parent pid closes a chain cannot lie on that chain: the
/// walk from the root never revisits a pid.
pub proof fn lemma_chain_push(records: Seq<ProcessStat>, path: Seq<u32>, ppid: u32, c: u32)
    requires
        wf_records(records),
        spec_chain(records, path, ppid),
        has_pid(records, c),
        rec_of(records, c).ppid == ppid,
    ensures
        !path.contains(c),
        spec_chain(records, path.push(c), c),
        path.len() + 1 <= records.len(),
{
    if path.contains(c) {
        let k = choose|k: int| 0 <= k < path.len() && path[k] == c;
        if k == 0 {
            // Then ppid == 0, so the chain's last pid would be 0, which no
            // record carries.
            assert(rec_of(records, c).ppid == 0);
            assert(path.last() == ppid);
            let j = choose|j: int| 0 <= j < path.len() && path[j] == path.last();
            lemma_idx_of(records, path.last());
        } else {
            assert(rec_of(records, path[k]).ppid == path[k - 1]);
            assert(path[k - 1] == path.last());
            assert(path[k - 1] == path[path.len() - 1]);
            assert(k - 1 == path.len() - 1);
        }
    }
    let path2 = path.push(c);
    assert(path2.no_duplicates()) by {
        assert(forall|k: int| 0 <= k < path.len() ==> path2[k] == path[k]);
        assert(path2[path.len() as int] == c);
    }
    assert forall|k: int| 0 <= k < path2.len() implies has_pid(records, #[trigger] path2[k]) by {
        if k < path.len() {
            assert(path2[k] == path[k]);
        }
    }
    assert forall|k: int|
        0 <= k < path2.len() implies rec_of(records, #[trigger] path2[k]).ppid == (if k == 0 {
        0u32
    } else {
        path2[k - 1]
    }) by {
        if k < path.len() {
            assert(path2[k] == path[k]);
        } else {
            assert(path2[k] == c);
        }
    }
    lemma_chain_len(records, path2, c);
}

// ---------------------------------------------------------------------------
// The builder.
// ---------------------------------------------------------------------------
/// Copy of a record; the copy is equal to the original.
fn clone_stat(r: &ProcessStat) -> (s: ProcessStat)
    ensures
        s == *r,
{
    ProcessStat {
        pid: r.pid,
        name: r.name.clone(),
        state: r.state,
        ppid: r.ppid,
        pgrp: r.pgrp,
        session: r.session,
        tty_nr: r.tty_nr,
        tpgid: r.tpgid,
        flags: r.flags,
        minflt: r.minflt,
        cminflt: r.cminflt,
        majflt: r.majflt,
        cmajflt: r.cmajflt,
        utime: r.utime,
        cutime: r.cutime,
        stime: r.stime,
        cstime: r.cstime,
        priority: r.priority,
        nice: r.nice,
        nthreads: r.nthreads,
    }
}

/// Materialize, in input order, the nodes of every record whose parent pid is
/// `ppid`, each with its full subtree. `path` is the ghost chain of pids that
/// leads from the synthetic root to this parent; since a well-formed snapshot
/// never revisits a pid on such a chain, the recursion is bounded by the
/// number of records.
pub fn build_process_tree(
    records: &Vec<ProcessStat>,
    ppid: u32,
    Ghost(path): Ghost<Seq<u32>>,
) -> (nodes: Vec<Process>)
    requires
        wf_records(records@),
        spec_chain(records@, path, ppid),
    ensures
        pids_of_nodes(nodes@) == child_pids(records@, ppid),
        forall|i: int| 0 <= i < nodes@.len() ==> node_ok(records@, #[trigger] nodes@[i]),
    decreases records@.len() - path.len(),
{
    proof {
        lemma_chain_len(records@, path, ppid);
    }
    let mut nodes: Vec<Process> = Vec::new();
    let mut i: usize = 0;
    while i < records.len()
        invariant
            wf_records(records@),
            spec_chain(records@, path, ppid),
            records@.len() - path.len() >= 0,
            0 <= i <= records@.len(),
            pids_of_nodes(nodes@) == child_pids(records@.take(i as int), ppid),
            forall|k: int| 0 <= k < nodes@.len() ==> node_ok(records@, #[trigger] nodes@[k]),
        decreases records@.len() - i,
    {
        let ghost prev = nodes@;
        proof {
            assert(records@.take(i + 1).drop_last() =~= records@.take(i as int));
            assert(records@.take(i + 1).last() == records@[i as int]);
        }
        if records[i].ppid == ppid {
            let c = records[i].pid;
            proof {
                lemma_wf_idx(records@, i as int);
                assert(rec_of(records@, c) == records@[i as int]);
                lemma_chain_push(records@, path, ppid, c);
            }
            let grand = build_process_tree(records, c, Ghost(path.push(c)));
            let stat = clone_stat(&records[i]);
            let name = records[i].name.clone();
            let node = Process { name, stat, children: grand };
            proof {
                assert(node_ok(records@, node));
            }
            nodes.push(node);
            proof {
                assert(pids_of_nodes(nodes@) =~= pids_of_nodes(prev).push(c));
                assert(pids_of_nodes(nodes@) =~= child_pids(records@.take(i + 1), ppid));
            }
        }
        i += 1;
    }
    proof {
        assert(records@.take(records@.len() as int) =~= records@);
    }
    nodes
}

// ---------------------------------------------------------------------------
// Cleaning a snapshot: keep, of each pid, the last record that carries it
// (later records overwrite earlier ones), and drop any record that claims
// pid 0, which is reserved for the synthetic root. On a well-formed snapshot
// this keeps every record.
// ---------------------------------------------------------------------------
/// Whether the record at index `i` survives cleaning: its pid is not 0 and no
/// later record carries the same pid.
pub open spec fn keep_at(records: Seq<ProcessStat>, i: int) -> bool {
    records[i].pid != 0 && idx_of(records, records[i].pid) == i
}

pub open spec fn ded_prefix(records: Seq<ProcessStat>, k: int) -> Seq<ProcessStat>
    decreases k,
{
    if k <= 0 {
        Seq::empty()
    } else if keep_at(records, k - 1) {
        ded_prefix(records, k - 1) + seq![records[k - 1]]
    } else {
        ded_prefix(records, k - 1)
    }
}

/// The cleaned snapshot: the surviving records, in input order.
pub open spec fn spec_dedup(records: Seq<ProcessStat>) -> Seq<ProcessStat> {
    ded_prefix(records, records.len() as int)
}

/// `e` is a surviving record from the first `k` entries.
pub open spec fn ded_from(records: Seq<ProcessStat>, k: int, e: ProcessStat) -> bool {
    exists|i: int| 0 <= i < k && e == records[i] && #[trigger] keep_at(records, i)
}

proof fn lemma_ded_wf(records: Seq<ProcessStat>, k: int)
    requires
        0 <= k <= records.len(),
    ensures
        rec_pids(ded_prefix(records, k)).no_duplicates(),
        forall|j: int|
            0 <= j < ded_prefix(records, k).len() ==> (#[trigger] ded_prefix(records, k)[j]).pid
                != 0,
        forall|j: int|
            #![trigger ded_prefix(records, k)[j]]
            0 <= j < ded_prefix(records, k).len() ==> ded_from(
                records,
                k,
                ded_prefix(records, k)[j],
            ),
    decreases k,
{
    if k > 0 {
        lemma_ded_wf(records, k - 1);
        let prev = ded_prefix(records, k - 1);
        let cur = ded_prefix(records, k);
        assert forall|j: int| 0 <= j < prev.len() implies ded_from(records, k, prev[j]) by {
            let i = choose|i: int|
                0 <= i < k - 1 && prev[j] == records[i] && #[trigger] keep_at(records, i);
            assert(0 <= i < k && prev[j] == records[i] && keep_at(records, i));
        }
        if keep_at(records, k - 1) {
            let p = records[k - 1].pid;
            assert forall|j: int| 0 <= j < prev.len() implies prev[j].pid != p by {
                let i = choose|i: int|
                    0 <= i < k - 1 && prev[j] == records[i] && #[trigger] keep_at(records, i);
                if records[i].pid == p {
                    assert(idx_of(records, p) == i);
                }
            }
            assert(cur =~= prev + seq![records[k - 1]]);
            assert(rec_pids(cur) =~= rec_pids(prev).push(p));
            assert(rec_pids(cur).no_duplicates()) by {
                assert(forall|j: int|
                    0 <= j < prev.len() ==> rec_pids(cur)[j] == #[trigger] rec_pids(prev)[j]);
                assert(rec_pids(cur)[prev.len() as int] == p);
            }
            assert forall|j: int|
                #![trigger cur[j]]
                0 <= j < cur.len() implies ded_from(records, k, cur[j]) by {
                if j < prev.len() {
                    assert(cur[j] == prev[j]);
                    assert(ded_from(records, k, prev[j]));
                } else {
                    assert(cur[j] == records[k - 1] && keep_at(records, k - 1));
                }
            }
        } else {
            assert(cur == prev);
        }
    }
}

/// A well-formed snapshot survives cleaning unchanged.
pub proof fn lemma_dedup_id(records: Seq<ProcessStat>)
    requires
        wf_records(records),
    ensures
        spec_dedup(records) == records,
{
    lemma_ded_id(records, records.len() as int);
    assert(records.take(records.len() as int) =~= records);
}

proof fn lemma_ded_id(records: Seq<ProcessStat>, k: int)
    requires
        wf_records(records),
        0 <= k <= records.len(),
    ensures
        ded_prefix(records, k) == records.take(k),
    decreases k,
{
    if k > 0 {
        lemma_ded_id(records, k - 1);
        lemma_wf_idx(records, k - 1);
        assert(keep_at(records, k - 1));
        assert(records.take(k) =~= records.take(k - 1) + seq![records[k - 1]]);
    } else {
        assert(records.take(0) =~= Seq::<ProcessStat>::empty());
    }
}

/// Clean a snapshot: of duplicate pids the last record wins, and records
/// claiming the reserved pid 0 are dropped. The result is well-formed.
pub fn dedup_records(records: &Vec<ProcessStat>) -> (out: Vec<ProcessStat>)
    ensures
        out@ == spec_dedup(records@),
        wf_records(spec_dedup(records@)),
{
    let mut out: Vec<ProcessStat> = Vec::new();
    let mut i: usize = 0;
    while i < records.len()
        invariant
            0 <= i <= records@.len(),
            out@ == ded_prefix(records@, i as int),
        decreases records@.len() - i,
    {
        let ghost prev = out@;
        let p = records[i].pid;
        if p != 0 {
            let mut last = true;
            let mut j = i + 1;
            while j < records.len()
                invariant
                    0 <= i < records@.len(),
                    i + 1 <= j <= records@.len(),
                    p == records@[i as int].pid,
                    last <==> (forall|t: int| i < t < j ==> (#[trigger] records@[t]).pid != p),
                decreases records@.len() - j,
            {
                if records[j].pid == p {
                    last = false;
                }
                j += 1;
            }
            proof {
                lemma_idx_of(records@, p);
                let w = idx_of(records@, p);
                if last {
                    assert(w >= 0);
                    if w > i {
                        assert(records@[w].pid != p);
                    }
                    if w < i {
                        assert(records@[i as int].pid != p);
                    }
                    assert(keep_at(records@, i as int));
                } else {
                    let t = choose|t: int| i < t < records@.len() && records@[t].pid == p;
                    if w == i {
                        assert(records@[t].pid != p);
                    }
                    assert(!keep_at(records@, i as int));
                }
            }
            if last {
                out.push(clone_stat(&records[i]));
                proof {
                    assert(out@ =~= prev + seq![records@[i as int]]);
                }
            }
        }
        proof {
            assert(out@ =~= ded_prefix(records@, i + 1));
        }
        i += 1;
    }
    proof {
        lemma_ded_wf(records@, records@.len() as int);
    }
    out
}

// ---------------------------------------------------------------------------
// Looking a pid up inside a finished tree.
// ---------------------------------------------------------------------------
/// The first node with pid `pid` in a pre-order walk of the tree, if any.
pub open spec fn spec_find(n: Process, pid: u32) -> Option<Process>
    decreases n, 1int, 0int,
{
    if n.stat.pid == pid {
        Some(n)
    } else {
        spec_find_among(n, 0, pid)
    }
}

pub open spec fn spec_find_among(n: Process, k: int, pid: u32) -> Option<Process>
    decreases n, 0int, n.children@.len() - k,
{
    if k < 0 || k >= n.children@.len() {
        None
    } else {
        match spec_find(n.children@[k], pid) {
            Some(m) => Some(m),
            None => spec_find_among(n, k + 1, pid),
        }
    }
}

/// What a pre-order hit under faithful children gives: a faithful node that
/// carries the pid that was looked up.
proof fn lemma_find_ok(records: Seq<ProcessStat>, n: Process, pid: u32)
    requires
        forall|i: int| 0 <= i < n.children@.len() ==> node_ok(records, #[trigger] n.children@[i]),
        n.stat.pid != pid,
        spec_find(n, pid) is Some,
    ensures
        node_ok(records, spec_find(n, pid).unwrap()),
        spec_find(n, pid).unwrap().stat.pid == pid,
    decreases n, 1int, 0int,
{
    lemma_find_among_ok(records, n, 0, pid);
}

proof fn lemma_find_among_ok(records: Seq<ProcessStat>, n: Process, k: int, pid: u32)
    requires
        forall|i: int| 0 <= i < n.children@.len() ==> node_ok(records, #[trigger] n.children@[i]),
        spec_find_among(n, k, pid) is Some,
    ensures
        node_ok(records, spec_find_among(n, k, pid).unwrap()),
        spec_find_among(n, k, pid).unwrap().stat.pid == pid,
    decreases n, 0int, n.children@.len() - k,
{
    let c = n.children@[k];
    if spec_find(c, pid) is Some {
        if c.stat.pid != pid {
            assert(node_ok(records, c));
            lemma_find_ok(records, c, pid);
        }
    } else {
        lemma_find_among_ok(records, n, k + 1, pid);
    }
}

/// Move the subtree with pid `pid` out of the tree, pre-order first match.
fn extract_node(node: Process, pid: u32) -> (r: Option<Process>)
    ensures
        r == spec_find(node, pid),
    decreases node, 1int, 0int,
{
    if node.pid() == pid {
        return Some(node);
    }
    let ghost n0 = node;
    let Process { name: _, stat: _, children } = node;
    proof {
        assert(children@ =~= n0.children@.skip(0));
    }
    extract_children(children, pid, Ghost(n0), Ghost(0))
}

fn extract_children(
    children: Vec<Process>,
    pid: u32,
    Ghost(parent): Ghost<Process>,
    Ghost(k0): Ghost<int>,
) -> (r: Option<Process>)
    requires
        0 <= k0 <= parent.children@.len(),
        children@ == parent.children@.skip(k0),
    ensures
        r == spec_find_among(parent, k0, pid),
    decreases parent, 0int, parent.children@.len() - k0,
{
    let mut children = children;
    if children.len() == 0 {
        return None;
    }
    let c = children.remove(0);
    proof {
        assert(c == parent.children@[k0]);
        assert(children@ =~= parent.children@.skip(k0 + 1));
    }
    match extract_node(c, pid) {
        Some(m) => Some(m),
        None => extract_children(children, pid, Ghost(parent), Ghost(k0 + 1)),
    }
}

/// Index of the record carrying `pid` in the cleaned snapshot, scanning from
/// the end so that the last record with a pid wins.
fn find_record(records: &Vec<ProcessStat>, pid: u32) -> (r: Option<usize>)
    ensures
        match r {
            Some(j) => j as int == idx_of(records@, pid),
            None => !has_pid(records@, pid),
        },
{
    let mut j = records.len();
    while j > 0
        invariant
            0 <= j <= records@.len(),
            forall|t: int| j <= t < records@.len() ==> (#[trigger] records@[t]).pid != pid,
        decreases j,
    {
        j -= 1;
        if records[j].pid == pid {
            proof {
                lemma_idx_of(records@, pid);
                let w = idx_of(records@, pid);
                if w > j {
                    assert(records@[w].pid != pid);
                }
                if w < j as int {
                    assert(records@[j as int].pid != pid);
                }
            }
            return Some(j);
        }
    }
    proof {
        lemma_idx_of(records@, pid);
    }
    None
}

// ---------------------------------------------------------------------------
// The full query: build the tree under the synthetic root, then answer for
// an arbitrary pid.
// ---------------------------------------------------------------------------
/// Answer the query for the subtree rooted at `pid`, over the cleaned
/// snapshot. Pid 0 names the synthetic root, whose name is the reserved
/// marker and whose children are the processes without a known parent. Any
/// other observed pid yields its node: the faithful subtree when the pid is
/// reachable from the root, and the bare, childless node when its record is
/// not attached to the root walk. An unobserved pid is reported absent.
pub fn get_process_tree(records: &Vec<ProcessStat>, pid: u32) -> (r: Option<Process>)
    ensures
        (r is Some) <==> (pid == 0 || has_pid(spec_dedup(records@), pid)),
        pid == 0 ==> {
            let root = r.unwrap();
            &&& root.stat.pid == 0
            &&& root.stat.ppid == 0
            &&& root.name@ == ROOT_PROC_NAME@
            &&& pids_of_nodes(root.children@) == child_pids(spec_dedup(records@), 0)
            &&& forall|i: int|
                0 <= i < root.children@.len() ==> node_ok(
                    spec_dedup(records@),
                    #[trigger] root.children@[i],
                )
        },
        pid != 0 && r is Some ==> {
            let node = r.unwrap();
            &&& node.stat.pid == pid
            &&& node.stat == rec_of(spec_dedup(records@), pid)
            &&& node.name@ == node.stat.name@
            &&& (node_ok(spec_dedup(records@), node) || node.children@.len() == 0)
        },
{
    let clean = dedup_records(records);
    proof {
        assert(Seq::<u32>::empty().no_duplicates());
        assert(spec_chain(clean@, Seq::<u32>::empty(), 0));
    }
    let root_children = build_process_tree(&clean, 0, Ghost(Seq::empty()));
    let root = Process {
        name: String::from_str(ROOT_PROC_NAME),
        stat: ProcessStat::default(),
        children: root_children,
    };
    if pid == 0 {
        return Some(root);
    }
    let ghost root0 = root;
    match extract_node(root, pid) {
        Some(node) => {
            proof {
                lemma_find_ok(clean@, root0, pid);
            }
            Some(node)
        },
        None => {
            match find_record(&clean, pid) {
                Some(j) => {
                    proof {
                        lemma_idx_of(clean@, pid);
                    }
                    let stat = clone_stat(&clean[j]);
                    let name = clean[j].name.clone();
                    Some(Process { name, stat, children: Vec::new() })
                },
                None => None,
            }
        },
    }
}

// ---------------------------------------------------------------------------
// Parsing one textual stat record. The two regular-expression searches are
// the only outside calls; everything around them is verified.
// ---------------------------------------------------------------------------
/// The three pieces of a line around the leftmost span matching `\(.*\)`:
/// the text before the span, the span, and the text after it; `None` when no
/// such span exists.
pub uninterp spec fn paren_split_of(s: Seq<char>) -> Option<(Seq<char>, Seq<char>, Seq<char>)>;

/// Relies on `regex::Regex::find` with the pattern `\(.*\)`: the leftmost
/// match runs from a `(` to the last `)` of the same line. The pieces
/// concatenate back to the input, and the match starts with `(` and ends
/// with `)`.
#[verifier::external_body]
fn split_paren(text: &str) -> (r: Option<(String, String, String)>)
    ensures
        r.deep_view() == paren_split_of(text@),
        match r {
            Some(parts) => {
                &&& parts.0@ + parts.1@ + parts.2@ == text@
                &&& parts.1@.len() >= 2
                &&& parts.1@[0] == '('
                &&& parts.1@.last() == ')'
            },
            None => true,
        },
{
    let re = regex::Regex::new(r"\(.*\)").unwrap();
    match re.find(text) {
        Some(m) => Some((
            text[..m.start()].to_string(),
            m.as_str().to_string(),
            text[m.end()..].to_string(),
        )),
        None => None,
    }
}

/// The pieces a stat line splits into, with the parenthesized command name
/// kept as a piece of its own: the non-empty text before it, the name span,
/// and the non-empty text after it; a line without a name span is one piece,
/// and an empty line none.
pub open spec fn spec_split_keep(text: Seq<char>) -> Seq<Seq<char>> {
    match paren_split_of(text) {
        Some(parts) => (if parts.0.len() > 0 {
            seq![parts.0]
        } else {
            Seq::empty()
        }) + seq![parts.1] + (if parts.2.len() > 0 {
            seq![parts.2]
        } else {
            Seq::empty()
        }),
        None => {
            if text.len() == 0 {
                Seq::empty()
            } else {
                seq![text]
            }
        },
    }
}

/// Split a line around its parenthesized command name, keeping the name.
pub fn split_keep(text: &str) -> (fields: Vec<String>)
    ensures
        fields.deep_view() == spec_split_keep(text@),
{
    let mut fields: Vec<String> = Vec::new();
    match split_paren(text) {
        Some(parts) => {
            let (before, name, after) = parts;
            if !before.as_str().is_empty() {
                fields.push(before);
            } else {
                proof {
                    assert(before@.len() == 0);
                }
            }
            fields.push(name);
            if !after.as_str().is_empty() {
                fields.push(after);
            } else {
                proof {
                    assert(after@.len() == 0);
                }
            }
            proof {
                assert(fields.deep_view() =~= spec_split_keep(text@));
            }
        },
        None => {
            if !text.is_empty() {
                fields.push(String::from_str(text));
            } else {
                proof {
                    assert(text@.len() == 0);
                }
            }
            proof {
                assert(fields.deep_view() =~= spec_split_keep(text@));
            }
        },
    }
    fields
}

/// The capture groups of the stat-line pattern on a line, `None` when the
/// line does not match: the state's word character, then seventeen decimal
/// fields.
pub uninterp spec fn stat_captures_of(s: Seq<char>) -> Option<Seq<Seq<char>>>;

/// Relies on `regex::Regex::captures` with the stat-line pattern. Its 18
/// groups are all mandatory, so a match yields exactly 18 pieces, and the
/// first — one word character — is never empty.
#[verifier::external_body]
fn stat_captures(line: &str) -> (r: Option<Vec<String>>)
    ensures
        r.deep_view() == stat_captures_of(line@),
        match r {
            Some(v) => v@.len() == 18 && v.deep_view()[0].len() == 1,
            None => true,
        },
{
    let re = regex::Regex::new(
        r"(\w) (\d+) (\d+) (\d+) (\d+) (-?\d+) (\d+) (\d+) (\d+) (\d+) (\d+) (\d+) (\d+) (\d+) (\d+) (\d+) (\d+) (\d+) .*",
    ).unwrap();
    match re.captures(line) {
        Some(caps) => {
            let mut v: Vec<String> = Vec::new();
            for i in 1..19 {
                v.push(caps[i].to_string());
            }
            Some(v)
        },
        None => None,
    }
}

/// Every numeric capture group parses into its field's type.
pub open spec fn spec_stat_fields_ok(caps: Seq<Seq<char>>) -> bool {
    &&& caps.len() >= 18
    &&& caps[0].len() >= 1
    &&& is_digit_seq_up_to(caps[1], u32::MAX as int)
    &&& is_digit_seq_up_to(caps[2], u32::MAX as int)
    &&& is_digit_seq_up_to(caps[3], u32::MAX as int)
    &&& is_digit_seq_up_to(caps[4], u32::MAX as int)
    &&& spec_i32_of(caps[5]) is Some
    &&& is_digit_seq_up_to(caps[6], u64::MAX as int)
    &&& is_digit_seq_up_to(caps[7], u64::MAX as int)
    &&& is_digit_seq_up_to(caps[8], u64::MAX as int)
    &&& is_digit_seq_up_to(caps[9], u64::MAX as int)
    &&& is_digit_seq_up_to(caps[10], u64::MAX as int)
    &&& is_digit_seq_up_to(caps[11], u64::MAX as int)
    &&& is_digit_seq_up_to(caps[12], u64::MAX as int)
    &&& is_digit_seq_up_to(caps[13], u64::MAX as int)
    &&& is_digit_seq_up_to(caps[14], u64::MAX as int)
    &&& is_digit_seq_up_to(caps[15], u64::MAX as int)
    &&& is_digit_seq_up_to(caps[16], u64::MAX as int)
    &&& is_digit_seq_up_to(caps[17], u64::MAX as int)
}

/// The stat's parsed fields carry exactly the captured values.
pub open spec fn spec_stat_matches(stat: ProcessStat, caps: Seq<Seq<char>>) -> bool {
    &&& stat.state == caps[0][0]
    &&& stat.ppid as int == spec_digits_val(caps[1])
    &&& stat.pgrp as int == spec_digits_val(caps[2])
    &&& stat.session as int == spec_digits_val(caps[3])
    &&& stat.tty_nr as int == spec_digits_val(caps[4])
    &&& spec_i32_of(caps[5]) == Some(stat.tpgid as int)
    &&& stat.flags as int == spec_digits_val(caps[6])
    &&& stat.minflt as int == spec_digits_val(caps[7])
    &&& stat.cminflt as int == spec_digits_val(caps[8])
    &&& stat.majflt as int == spec_digits_val(caps[9])
    &&& stat.cmajflt as int == spec_digits_val(caps[10])
    &&& stat.utime as int == spec_digits_val(caps[11])
    &&& stat.cutime as int == spec_digits_val(caps[12])
    &&& stat.stime as int == spec_digits_val(caps[13])
    &&& stat.cstime as int == spec_digits_val(caps[14])
    &&& stat.priority as int == spec_digits_val(caps[15])
    &&& stat.nice as int == spec_digits_val(caps[16])
    &&& stat.nthreads as int == spec_digits_val(caps[17])
}

/// Fill every field after the command name from a stat line: succeeds
/// exactly when the line matches the stat pattern and every numeric group
/// fits its field; on failure the stat is left as it was.
pub fn parse_stat_str(stat: &mut ProcessStat, line: &str) -> (r: Option<()>)
    ensures
        r is Some <==> (stat_captures_of(line@) is Some && spec_stat_fields_ok(
            stat_captures_of(line@).unwrap(),
        )),
        r is Some ==> {
            let caps = stat_captures_of(line@).unwrap();
            &&& spec_stat_matches(*final(stat), caps)
            &&& final(stat).pid == old(stat).pid
            &&& final(stat).name == old(stat).name
        },
        r is None ==> *final(stat) == *old(stat),
{
    let caps = match stat_captures(line) {
        Some(v) => v,
        None => {
            return None;
        },
    };
    proof {
        assert(caps.deep_view() == stat_captures_of(line@).unwrap());
        assert(forall|i: int|
            0 <= i < caps@.len() ==> caps.deep_view()[i] == (#[trigger] caps@[i])@);
    }
    let state = caps[0].as_str().get_char(0);
    let ppid = match parse_u32(caps[1].as_str()) {
        Some(v) => v,
        None => {
            return None;
        },
    };
    let pgrp = match parse_u32(caps[2].as_str()) {
        Some(v) => v,
        None => {
            return None;
        },
    };
    let session = match parse_u32(caps[3].as_str()) {
        Some(v) => v,
        None => {
            return None;
        },
    };
    let tty_nr = match parse_u32(caps[4].as_str()) {
        Some(v) => v,
        None => {
            return None;
        },
    };
    let tpgid = match parse_i32(caps[5].as_str()) {
        Some(v) => v,
        None => {
            return None;
        },
    };
    let flags = match parse_u64(caps[6].as_str()) {
        Some(v) => v,
        None => {
            return None;
        },
    };
    let minflt = match parse_u64(caps[7].as_str()) {
        Some(v) => v,
        None => {
            return None;
        },
    };
    let cminflt = match parse_u64(caps[8].as_str()) {
        Some(v) => v,
        None => {
            return None;
        },
    };
    let majflt = match parse_u64(caps[9].as_str()) {
        Some(v) => v,
        None => {
            return None;
        },
    };
    let cmajflt = match parse_u64(caps[10].as_str()) {
        Some(v) => v,
        None => {
            return None;
        },
    };
    let utime = match parse_u64(caps[11].as_str()) {
        Some(v) => v,
        None => {
            return None;
        },
    };
    let cutime = match parse_u64(caps[12].as_str()) {
        Some(v) => v,
        None => {
            return None;
        },
    };
    let stime = match parse_u64(caps[13].as_str()) {
        Some(v) => v,
        None => {
            return None;
        },
    };
    let cstime = match parse_u64(caps[14].as_str()) {
        Some(v) => v,
        None => {
            return None;
        },
    };
    let priority = match parse_u64(caps[15].as_str()) {
        Some(v) => v,
        None => {
            return None;
        },
    };
    let nice = match parse_u64(caps[16].as_str()) {
        Some(v) => v,
        None => {
            return None;
        },
    };
    let nthreads = match parse_u64(caps[17].as_str()) {
        Some(v) => v,
        None => {
            return None;
        },
    };
    stat.state = state;
    stat.ppid = ppid;
    stat.pgrp = pgrp;
    stat.session = session;
    stat.tty_nr = tty_nr;
    stat.tpgid = tpgid;
    stat.flags = flags;
    stat.minflt = minflt;
    stat.cminflt = cminflt;
    stat.majflt = majflt;
    stat.cmajflt = cmajflt;
    stat.utime = utime;
    stat.cutime = cutime;
    stat.stime = stime;
    stat.cstime = cstime;
    stat.priority = priority;
    stat.nice = nice;
    stat.nthreads = nthreads;
    Some(())
}

/// The digits of a record's pid, as they stand before its command name:
/// the leading piece of the line with surrounding spaces removed.
pub open spec fn spec_pid_piece(before: Seq<char>) -> Seq<char> {
    spec_strip_trailing(spec_strip_leading(before, ' '), ' ')
}

/// The command name inside the parenthesized span: the span without its
/// leading `(` run and trailing `)` run.
pub open spec fn spec_name_piece(span: Seq<char>) -> Seq<char> {
    spec_strip_trailing(spec_strip_leading(span, '('), ')')
}

/// Parse the whole text of a `stat` file into a record: succeeds exactly
/// when the line splits into pid, parenthesized name and a tail that the
/// stat pattern accepts, with every numeric field in range. Reading the
/// file itself is I/O and stays with the program around this library.
pub fn parse_proc_stat(contents: &str) -> (r: Option<ProcessStat>)
    ensures
        r is Some <==> ({
            let sp = paren_split_of(contents@);
            &&& sp is Some
            &&& sp.unwrap().0.len() > 0
            &&& sp.unwrap().2.len() > 0
            &&& is_digit_seq_up_to(spec_pid_piece(sp.unwrap().0), u32::MAX as int)
            &&& stat_captures_of(sp.unwrap().2) is Some
            &&& spec_stat_fields_ok(stat_captures_of(sp.unwrap().2).unwrap())
        }),
        r is Some ==> ({
            let parts = paren_split_of(contents@).unwrap();
            let stat = r.unwrap();
            &&& stat.pid as int == spec_digits_val(spec_pid_piece(parts.0))
            &&& stat.name@ == spec_name_piece(parts.1)
            &&& spec_stat_matches(stat, stat_captures_of(parts.2).unwrap())
        }),
{
    let mut fields = split_keep(contents);
    proof {
        let sp = paren_split_of(contents@);
        if sp is Some {
            let parts = sp.unwrap();
            if parts.0.len() > 0 && parts.2.len() > 0 {
                assert(fields.deep_view().len() == 3);
                assert(fields.deep_view()[0] == parts.0);
                assert(fields.deep_view()[1] == parts.1);
                assert(fields.deep_view()[2] == parts.2);
            } else {
                assert(fields.deep_view().len() <= 2);
            }
        } else {
            assert(fields.deep_view().len() <= 1);
        }
        assert(forall|i: int|
            0 <= i < fields@.len() ==> fields.deep_view()[i] == (#[trigger] fields@[i])@);
    }
    if fields.len() != 3 {
        return None;
    }
    let pid_piece = strip_trailing(strip_leading(fields[0].as_str(), ' '), ' ');
    let pid = match parse_u32(pid_piece) {
        Some(v) => v,
        None => {
            return None;
        },
    };
    let name = String::from_str(strip_trailing(strip_leading(fields[1].as_str(), '('), ')'));
    let mut stat = ProcessStat::default();
    stat.pid = pid;
    stat.name = name;
    match parse_stat_str(&mut stat, fields[2].as_str()) {
        Some(_) => Some(stat),
        None => None,
    }
}

/// Whether a directory entry of the scanned tree names a process: its name
/// is a plain decimal pid.
pub fn is_process_dir(filename: &str) -> (r: bool)
    ensures
        r == is_digit_seq_up_to(filename@, u32::MAX as int),
{
    parse_u32(filename).is_some()
}

/// The provider of trees read from a Linux `/proc` directory. The scan of
/// that directory is I/O and lives with the program around this library; the
/// provider itself only carries the directory to scan.
#[derive(Copy, Clone, Debug)]
pub struct LinuxProvider {
    pub proc_path: &'static str,
}

impl LinuxProvider {
    pub fn new() -> (r: Self)
        ensures
            r.proc_path@ == LINUX_PROC_DIR@,
    {
        LinuxProvider { proc_path: LINUX_PROC_DIR }
    }

    /// Point the provider at another directory laid out like `/proc`.
    pub fn change_proc_path(&mut self, proc_path: &'static str)
        ensures
            final(self).proc_path@ == proc_path@,
    {
        self.proc_path = proc_path;
    }
}

} // verus!

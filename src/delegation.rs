//! The delegation graph: each account may delegate its vote to one other
//! account; delegations are validated against cycles and a maximum chain
//! length, and any account can be resolved to the end of its chain.

use std::collections::HashMap;
use std::collections::HashSet;
use vstd::prelude::*;

verus! {

broadcast use vstd::std_specs::hash::group_hash_axioms;

/// Why a delegation operation was rejected.
#[derive(Clone, Copy, Debug, PartialEq, Eq, Structural)]
pub enum DelegationError {
    /// The new edge would close a cycle or exceed the configured depth.
    InvalidDelegation,
    /// An account tried to undelegate from itself, or from an account whose
    /// delegator list does not hold it.
    InvalidUndelegation,
    /// Following the delegation chain came back to an account already seen.
    DelegationCycleDetected,
}

/// What a successful delegation operation records.
#[derive(Clone, Copy, Debug, PartialEq, Eq, Structural)]
pub enum Event {
    /// (delegator, target) when a delegator delegates to a target.
    Delegated(u64, u64),
    /// (delegator, target) when an account undelegates from a target.
    Undelegated(u64, u64),
}

/// The delegation store: forward edges, their reverse lists, the
/// configured maximum chain length, and the events not yet handed out.
pub struct Module {
    delegation_depth: u32,
    delegates_of: HashMap<u64, u64>,
    delegates_to: HashMap<u64, Vec<u64>>,
    events: Vec<Event>,
}

/// The account reached from `start` after following at most `n` edges,
/// stopping early at an account that does not delegate.
pub open spec fn walk(edges: Map<u64, u64>, start: u64, n: nat) -> u64
    decreases n,
{
    if n == 0 || !edges.contains_key(start) {
        start
    } else {
        walk(edges, edges[start], (n - 1) as nat)
    }
}

/// Whether the edge `from -> to` is rejected when `to` is the `length`-th
/// hop of the chain that it would start: the chain is too long, or it comes
/// back to `from`.
pub open spec fn invalid_delegation(
    edges: Map<u64, u64>,
    depth: u32,
    from: u64,
    to: u64,
    length: int,
) -> bool
    decreases depth + 1 - length,
{
    if length > depth {
        true
    } else if from == to {
        true
    } else if edges.contains_key(to) {
        invalid_delegation(edges, depth, from, edges[to], length + 1)
    } else {
        false
    }
}

/// Whether the chain from `start` ends at an account that does not delegate.
pub open spec fn has_sink(edges: Map<u64, u64>, start: u64) -> bool {
    exists|n: nat| !edges.contains_key(#[trigger] walk(edges, start, n))
}

/// The account at the end of the chain from `start`.
pub open spec fn sink_of(edges: Map<u64, u64>, start: u64) -> u64
    recommends
        has_sink(edges, start),
{
    walk(edges, start, choose|n: nat| !edges.contains_key(#[trigger] walk(edges, start, n)))
}

/// Following `a` edges and then `b` more is following `a + b` edges.
pub proof fn lemma_walk_split(edges: Map<u64, u64>, start: u64, a: nat, b: nat)
    ensures
        walk(edges, start, a + b) == walk(edges, walk(edges, start, a), b),
    decreases a,
{
    if a > 0 && edges.contains_key(start) {
        lemma_walk_split(edges, edges[start], (a - 1) as nat, b);
        assert((a - 1) as nat + b == (a + b - 1) as nat);
    } else if a > 0 {
        lemma_walk_stays(edges, start, a + b);
        lemma_walk_stays(edges, start, a);
    }
}

/// A walk stays put at an account that does not delegate.
pub proof fn lemma_walk_stays(edges: Map<u64, u64>, start: u64, n: nat)
    requires
        !edges.contains_key(start),
    ensures
        walk(edges, start, n) == start,
{
}

/// Two ends of the same chain are the same account.
pub proof fn lemma_sink_unique(edges: Map<u64, u64>, start: u64, i: nat, j: nat)
    requires
        !edges.contains_key(walk(edges, start, i)),
        !edges.contains_key(walk(edges, start, j)),
    ensures
        walk(edges, start, i) == walk(edges, start, j),
{
    if i <= j {
        lemma_walk_split(edges, start, i, (j - i) as nat);
        lemma_walk_stays(edges, walk(edges, start, i), (j - i) as nat);
        assert(i + (j - i) as nat == j);
    } else {
        lemma_walk_split(edges, start, j, (i - j) as nat);
        lemma_walk_stays(edges, walk(edges, start, j), (i - j) as nat);
        assert(j + (i - j) as nat == i);
    }
}

/// The end of a chain reached after `i` steps is `sink_of`.
pub proof fn lemma_sink_of_is_end(edges: Map<u64, u64>, start: u64, i: nat)
    requires
        !edges.contains_key(walk(edges, start, i)),
    ensures
        has_sink(edges, start),
        sink_of(edges, start) == walk(edges, start, i),
{
    assert(has_sink(edges, start));
    let n = choose|n: nat| !edges.contains_key(#[trigger] walk(edges, start, n));
    lemma_sink_unique(edges, start, i, n);
}

/// If the walk from `start` comes back to an account it visited, it never
/// reaches an account that does not delegate.
pub proof fn lemma_revisit_never_ends(edges: Map<u64, u64>, start: u64, i: nat, j: nat)
    requires
        i < j,
        walk(edges, start, i) == walk(edges, start, j),
        forall|k: nat| k < j ==> edges.contains_key(#[trigger] walk(edges, start, k)),
    ensures
        !has_sink(edges, start),
{
    assert forall|n: nat| edges.contains_key(#[trigger] walk(edges, start, n)) by {
        lemma_periodic_walk(edges, start, i, j, n);
    }
}

proof fn lemma_periodic_walk(edges: Map<u64, u64>, start: u64, i: nat, j: nat, n: nat)
    requires
        i < j,
        walk(edges, start, i) == walk(edges, start, j),
        forall|k: nat| k < j ==> edges.contains_key(#[trigger] walk(edges, start, k)),
    ensures
        edges.contains_key(walk(edges, start, n)),
    decreases n,
{
    if n >= j {
        let m = (i + (n - j)) as nat;
        lemma_walk_split(edges, start, j, (n - j) as nat);
        lemma_walk_split(edges, start, i, (n - j) as nat);
        assert(j + (n - j) as nat == n);
        lemma_periodic_walk(edges, start, i, j, m);
    }
}

/// The reverse list of `to` after `delegator` is appended to it.
pub open spec fn appended_backlink(backlinks: Map<u64, Seq<u64>>, to: u64, delegator: u64) -> Seq<u64> {
    if backlinks.contains_key(to) {
        backlinks[to].push(delegator)
    } else {
        seq![delegator]
    }
}

/// `s` without the first occurrence of `x` (unchanged if `x` is absent).
pub open spec fn remove_first(s: Seq<u64>, x: u64) -> Seq<u64>
    decreases s.len(),
{
    if s.len() == 0 {
        s
    } else if s[0] == x {
        s.drop_first()
    } else {
        seq![s[0]] + remove_first(s.drop_first(), x)
    }
}

/// The reverse lists after `sender` is taken out of the list of `from`; a
/// list left empty is removed.
pub open spec fn backlinks_without(backlinks: Map<u64, Seq<u64>>, from: u64, sender: u64) -> Map<u64, Seq<u64>> {
    if !backlinks.contains_key(from) {
        backlinks
    } else if remove_first(backlinks[from], sender).len() == 0 {
        backlinks.remove(from)
    } else {
        backlinks.insert(from, remove_first(backlinks[from], sender))
    }
}

/// Removing the element at the first index that holds `x` removes the
/// first occurrence of `x`.
proof fn lemma_remove_first(s: Seq<u64>, x: u64, i: int)
    requires
        0 <= i < s.len(),
        s[i] == x,
        forall|j: int| 0 <= j < i ==> s[j] != x,
    ensures
        s.remove(i) == remove_first(s, x),
    decreases i,
{
    if i == 0 {
        assert(s.remove(0) =~= s.drop_first());
    } else {
        lemma_remove_first(s.drop_first(), x, i - 1);
        assert(s.remove(i) =~= seq![s[0]] + s.drop_first().remove(i - 1));
    }
}

/// The first index of `x` in `v`, if any.
fn position_of(v: &Vec<u64>, x: u64) -> (r: Option<usize>)
    ensures
        match r {
            Some(i) => i < v.len() && v@[i as int] == x && forall|j: int| 0 <= j < i ==> v@[j] != x,
            None => !v@.contains(x),
        },
{
    let mut i: usize = 0;
    while i < v.len()
        invariant
            i <= v.len(),
            forall|j: int| 0 <= j < i ==> v@[j] != x,
        decreases v.len() - i,
    {
        if v[i] == x {
            return Some(i);
        }
        i += 1;
    }
    None
}

/// Three accounts delegating in a ring: when none of them delegates yet and
/// the depth is at least three, `a -> b` and then `b -> c` are accepted, and
/// `c -> a`, which would close the ring, is rejected.
pub proof fn lemma_three_cycle_rejected(edges: Map<u64, u64>, depth: u32, a: u64, b: u64, c: u64)
    requires
        a != b,
        b != c,
        a != c,
        !edges.contains_key(a),
        !edges.contains_key(b),
        !edges.contains_key(c),
        depth >= 3,
    ensures
        !invalid_delegation(edges, depth, a, b, 1),
        !invalid_delegation(edges.insert(a, b), depth, b, c, 1),
        invalid_delegation(edges.insert(a, b).insert(b, c), depth, c, a, 1),
{
    let e2 = edges.insert(a, b).insert(b, c);
    assert(invalid_delegation(e2, depth, c, c, 3));
    assert(invalid_delegation(e2, depth, c, b, 2));
}

/// When the chain from `to` already has `depth` hops, any new edge into
/// `to` is rejected: it would make the chain one hop too long.
pub proof fn lemma_overlong_chain_rejected(edges: Map<u64, u64>, depth: u32, from: u64, to: u64)
    requires
        forall|n: nat| n < depth ==> edges.contains_key(#[trigger] walk(edges, to, n)),
    ensures
        invalid_delegation(edges, depth, from, to, 1),
{
    lemma_long_chain_invalid(edges, depth, from, to, 1);
}

proof fn lemma_long_chain_invalid(edges: Map<u64, u64>, depth: u32, from: u64, to: u64, length: int)
    requires
        1 <= length <= depth + 1,
        forall|n: nat| n < depth + 1 - length ==> edges.contains_key(#[trigger] walk(edges, to, n)),
    ensures
        invalid_delegation(edges, depth, from, to, length),
    decreases depth + 1 - length,
{
    if length <= depth && from != to {
        assert(edges.contains_key(walk(edges, to, 0)));
        let next = edges[to];
        assert forall|n: nat| n < depth + 1 - (length + 1) implies edges.contains_key(
            #[trigger] walk(edges, next, n),
        ) by {
            assert(walk(edges, to, n + 1) == walk(edges, next, n));
            assert(edges.contains_key(walk(edges, to, n + 1)));
        }
        lemma_long_chain_invalid(edges, depth, from, next, length + 1);
    }
}

/// Resolving the end of a chain again gives the same account.
pub proof fn lemma_sink_idempotent(edges: Map<u64, u64>, x: u64)
    requires
        has_sink(edges, x),
    ensures
        has_sink(edges, sink_of(edges, x)),
        sink_of(edges, sink_of(edges, x)) == sink_of(edges, x),
{
    let s = sink_of(edges, x);
    lemma_sink_of_is_end(edges, s, 0);
}

/// Every chain ends at an account that does not delegate: there is no cycle.
pub open spec fn all_chains_end(edges: Map<u64, u64>) -> bool {
    forall|x: u64| #[trigger] has_sink(edges, x)
}

/// A delegation that passes validation keeps every chain ending: if no
/// chain loops before the new edge is added, none loops after.
pub proof fn lemma_valid_delegation_keeps_chains_ending(edges: Map<u64, u64>, depth: u32, from: u64, to: u64)
    requires
        all_chains_end(edges),
        !invalid_delegation(edges, depth, from, to, 1),
    ensures
        all_chains_end(edges.insert(from, to)),
{
    lemma_valid_target_ends(edges, depth, from, to, to, 1);
    assert forall|x: u64| #[trigger] has_sink(edges.insert(from, to), x) by {
        assert(has_sink(edges, x));
        let m = choose|n: nat| !edges.contains_key(#[trigger] walk(edges, x, n));
        lemma_ends_after_insert(edges, from, to, x, m);
    }
}

/// Removing an edge keeps every chain ending.
pub proof fn lemma_removal_keeps_chains_ending(edges: Map<u64, u64>, a: u64)
    requires
        all_chains_end(edges),
    ensures
        all_chains_end(edges.remove(a)),
{
    assert forall|x: u64| #[trigger] has_sink(edges.remove(a), x) by {
        assert(has_sink(edges, x));
        let m = choose|n: nat| !edges.contains_key(#[trigger] walk(edges, x, n));
        lemma_ends_after_remove(edges, a, x, m);
    }
}

proof fn lemma_valid_target_ends(
    edges: Map<u64, u64>,
    depth: u32,
    from: u64,
    to: u64,
    cur: u64,
    length: int,
)
    requires
        !invalid_delegation(edges, depth, from, cur, length),
    ensures
        has_sink(edges.insert(from, to), cur),
    decreases depth + 1 - length,
{
    let e2 = edges.insert(from, to);
    if !edges.contains_key(cur) {
        assert(!e2.contains_key(walk(e2, cur, 0)));
    } else {
        let next = edges[cur];
        lemma_valid_target_ends(edges, depth, from, to, next, length + 1);
        let n = choose|n: nat| !e2.contains_key(#[trigger] walk(e2, next, n));
        assert(walk(e2, cur, n + 1) == walk(e2, next, n));
        assert(!e2.contains_key(walk(e2, cur, n + 1)));
    }
}

proof fn lemma_ends_after_insert(edges: Map<u64, u64>, from: u64, to: u64, x: u64, m: nat)
    requires
        !edges.contains_key(walk(edges, x, m)),
        has_sink(edges.insert(from, to), to),
    ensures
        has_sink(edges.insert(from, to), x),
    decreases m,
{
    let e2 = edges.insert(from, to);
    let n = choose|n: nat| !e2.contains_key(#[trigger] walk(e2, to, n));
    if x == from {
        assert(walk(e2, x, n + 1) == walk(e2, to, n));
        assert(!e2.contains_key(walk(e2, x, n + 1)));
    } else if !edges.contains_key(x) {
        assert(!e2.contains_key(walk(e2, x, 0)));
    } else {
        let next = edges[x];
        assert(walk(edges, x, m) == walk(edges, next, (m - 1) as nat));
        lemma_ends_after_insert(edges, from, to, next, (m - 1) as nat);
        let k = choose|k: nat| !e2.contains_key(#[trigger] walk(e2, next, k));
        assert(walk(e2, x, k + 1) == walk(e2, next, k));
        assert(!e2.contains_key(walk(e2, x, k + 1)));
    }
}

proof fn lemma_ends_after_remove(edges: Map<u64, u64>, a: u64, x: u64, m: nat)
    requires
        !edges.contains_key(walk(edges, x, m)),
    ensures
        has_sink(edges.remove(a), x),
    decreases m,
{
    let e2 = edges.remove(a);
    if x == a || !edges.contains_key(x) {
        assert(!e2.contains_key(walk(e2, x, 0)));
    } else {
        let next = edges[x];
        assert(walk(edges, x, m) == walk(edges, next, (m - 1) as nat));
        lemma_ends_after_remove(edges, a, next, (m - 1) as nat);
        let k = choose|k: nat| !e2.contains_key(#[trigger] walk(e2, next, k));
        assert(walk(e2, x, k + 1) == walk(e2, next, k));
        assert(!e2.contains_key(walk(e2, x, k + 1)));
    }
}

impl Module {
    /// The configured maximum chain length.
    pub closed spec fn depth(&self) -> u32 {
        self.delegation_depth
    }

    /// The forward edges: delegator to delegate.
    pub closed spec fn edges(&self) -> Map<u64, u64> {
        self.delegates_of@
    }

    /// The reverse lists: delegate to the accounts recorded as delegating to it.
    pub closed spec fn backlinks(&self) -> Map<u64, Seq<u64>> {
        self.delegates_to@.map_values(|v: Vec<u64>| v@)
    }

    /// The events deposited and not yet taken, oldest first.
    pub closed spec fn event_log(&self) -> Seq<Event> {
        self.events@
    }

    /// No reverse list is stored empty, and every chain ends.
    pub closed spec fn wf(&self) -> bool {
        &&& forall|k: u64| #[trigger] self.delegates_to@.contains_key(k) ==> self.delegates_to@[k]@.len() > 0
        &&& all_chains_end(self.delegates_of@)
    }

    /// An empty graph with the given maximum chain length.
    pub fn new(delegation_depth: u32) -> (r: Module)
        ensures
            r.wf(),
            r.depth() == delegation_depth,
            r.edges() == Map::<u64, u64>::empty(),
            r.backlinks() == Map::<u64, Seq<u64>>::empty(),
            r.event_log() == Seq::<Event>::empty(),
    {
        let r = Module {
            delegation_depth,
            delegates_of: HashMap::new(),
            delegates_to: HashMap::new(),
            events: Vec::new(),
        };
        assert(r.backlinks() =~= Map::<u64, Seq<u64>>::empty());
        assert forall|x: u64| #[trigger] has_sink(r.delegates_of@, x) by {
            assert(!r.delegates_of@.contains_key(walk(r.delegates_of@, x, 0)));
        }
        r
    }

    /// The configured maximum chain length.
    pub fn delegation_depth(&self) -> (r: u32)
        ensures
            r == self.depth(),
    {
        self.delegation_depth
    }

    /// The account that `account` delegates to, if any.
    pub fn delegate_of(&self, account: &u64) -> (r: Option<u64>)
        ensures
            r == (if self.edges().contains_key(*account) {
                Some(self.edges()[*account])
            } else {
                None
            }),
    {
        match self.delegates_of.get(account) {
            Some(d) => Some(*d),
            None => None,
        }
    }

    /// The accounts recorded as delegating to `account`, if any.
    pub fn delegates_to(&self, account: &u64) -> (r: Option<Vec<u64>>)
        ensures
            match r {
                Some(v) => self.backlinks().contains_key(*account) && v@ == self.backlinks()[*account],
                None => !self.backlinks().contains_key(*account),
            },
    {
        match self.delegates_to.get(account) {
            Some(v) => {
                let c = v.clone();
                assert(c@ =~= v@);
                Some(c)
            },
            None => None,
        }
    }

    /// The events deposited and not yet taken, oldest first.
    pub fn events(&self) -> (r: &Vec<Event>)
        ensures
            r@ == self.event_log(),
    {
        &self.events
    }

    /// Hands out the deposited events, oldest first, and clears the log.
    pub fn take_events(&mut self) -> (r: Vec<Event>)
        requires
            old(self).wf(),
        ensures
            final(self).wf(),
            r@ == old(self).event_log(),
            final(self).event_log() == Seq::<Event>::empty(),
            final(self).depth() == old(self).depth(),
            final(self).edges() == old(self).edges(),
            final(self).backlinks() == old(self).backlinks(),
    {
        let r = self.events.split_off(0);
        assert(self.events@ =~= Seq::<Event>::empty());
        assert(r@ =~= old(self).event_log());
        r
    }

    /// Whether the edge `from -> to` must be rejected, where `to` stands as
    /// the `length`-th hop of the chain it starts. Walks the existing edges
    /// from `to` with an explicit hop counter.
    pub fn is_invalid_delegation(&self, from: &u64, to: u64, length: u32) -> (r: bool)
        ensures
            r == invalid_delegation(self.edges(), self.depth(), *from, to, length as int),
    {
        if length > self.delegation_depth {
            return true;
        }
        let mut cur = to;
        let mut len: u32 = length;
        loop
            invariant
                len <= self.depth(),
                invalid_delegation(self.edges(), self.depth(), *from, cur, len as int)
                    == invalid_delegation(self.edges(), self.depth(), *from, to, length as int),
            decreases self.depth() - len,
        {
            if *from == cur {
                return true;
            }
            match self.delegates_of.get(&cur) {
                Some(d) => {
                    if len == self.delegation_depth {
                        assert(invalid_delegation(self.edges(), self.depth(), *from, *d, len + 1));
                        return true;
                    }
                    cur = *d;
                    len = len + 1;
                },
                None => {
                    return false;
                },
            }
        }
    }

    /// Delegates `sender`'s vote to `to`. Rejected when the new edge would
    /// close a cycle or make a chain longer than the configured depth;
    /// otherwise the forward edge of `sender` is overwritten and `sender` is
    /// appended to the reverse list of `to`. The reverse list of a previous
    /// delegate is left as it was.
    pub fn delegate_to(&mut self, sender: u64, to: u64) -> (r: Result<(), DelegationError>)
        requires
            old(self).wf(),
        ensures
            final(self).wf(),
            final(self).depth() == old(self).depth(),
            invalid_delegation(old(self).edges(), old(self).depth(), sender, to, 1) ==> {
                &&& r == Err::<(), DelegationError>(DelegationError::InvalidDelegation)
                &&& final(self).edges() == old(self).edges()
                &&& final(self).backlinks() == old(self).backlinks()
                &&& final(self).event_log() == old(self).event_log()
            },
            !invalid_delegation(old(self).edges(), old(self).depth(), sender, to, 1) ==> {
                &&& r == Ok::<(), DelegationError>(())
                &&& final(self).edges() == old(self).edges().insert(sender, to)
                &&& final(self).event_log() == old(self).event_log().push(Event::Delegated(sender, to))
                &&& final(self).backlinks() == old(self).backlinks().insert(
                    to,
                    appended_backlink(old(self).backlinks(), to, sender),
                )
            },
    {
        if self.is_invalid_delegation(&sender, to, 1) {
            return Err(DelegationError::InvalidDelegation);
        }
        proof {
            lemma_valid_delegation_keeps_chains_ending(self.edges(), self.depth(), sender, to);
        }
        self.delegates_of.insert(sender, to);
        let list = match self.delegates_to.remove(&to) {
            Some(mut v) => {
                v.push(sender);
                v
            },
            None => vec![sender],
        };
        assert(list@ == appended_backlink(old(self).backlinks(), to, sender));
        self.delegates_to.insert(to, list);
        assert(self.backlinks() =~= old(self).backlinks().insert(
            to,
            appended_backlink(old(self).backlinks(), to, sender),
        ));
        self.events.push(Event::Delegated(sender, to));
        Ok(())
    }

    /// Removes `sender`'s delegation and takes `sender` out of the reverse
    /// list of `from`. The forward edge of `sender` is removed whatever it
    /// pointed to. Rejected, with nothing changed, when `sender == from` or
    /// when `from` has a reverse list that does not hold `sender`.
    pub fn undelegate_from(&mut self, sender: u64, from: u64) -> (r: Result<(), DelegationError>)
        requires
            old(self).wf(),
        ensures
            final(self).wf(),
            final(self).depth() == old(self).depth(),
            ({
                let b = old(self).backlinks();
                let rejected = sender == from || (b.contains_key(from) && !b[from].contains(sender));
                &&& rejected ==> {
                    &&& r == Err::<(), DelegationError>(DelegationError::InvalidUndelegation)
                    &&& final(self).edges() == old(self).edges()
                    &&& final(self).backlinks() == b
                    &&& final(self).event_log() == old(self).event_log()
                }
                &&& !rejected ==> {
                    &&& r == Ok::<(), DelegationError>(())
                    &&& final(self).edges() == old(self).edges().remove(sender)
                    &&& final(self).event_log() == old(self).event_log().push(
                        Event::Undelegated(sender, from),
                    )
                    &&& final(self).backlinks() == backlinks_without(b, from, sender)
                }
            }),
    {
        if sender == from {
            return Err(DelegationError::InvalidUndelegation);
        }
        let pos = match self.delegates_to.get(&from) {
            Some(v) => match position_of(v, sender) {
                Some(i) => Some(i),
                None => {
                    return Err(DelegationError::InvalidUndelegation);
                },
            },
            None => None,
        };
        proof {
            lemma_removal_keeps_chains_ending(self.edges(), sender);
        }
        self.delegates_of.remove(&sender);
        if let Some(i) = pos {
            let ghost b = old(self).backlinks();
            proof {
                lemma_remove_first(b[from], sender, i as int);
            }
            match self.delegates_to.remove(&from) {
                Some(mut v) => {
                    v.remove(i);
                    if v.len() > 0 {
                        self.delegates_to.insert(from, v);
                    }
                },
                None => {},
            }
        }
        assert(self.backlinks() =~= backlinks_without(old(self).backlinks(), from, sender));
        self.events.push(Event::Undelegated(sender, from));
        Ok(())
    }

    /// The account at the end of `start`'s delegation chain. Fails when the
    /// chain comes back to an account it already passed, so it never ends;
    /// in a well-formed store every chain ends.
    pub fn get_sink_delegator(&self, start: u64) -> (r: Result<u64, DelegationError>)
        ensures
            self.wf() ==> has_sink(self.edges(), start),
            has_sink(self.edges(), start) ==> r == Ok::<u64, DelegationError>(sink_of(self.edges(), start)),
            !has_sink(self.edges(), start) ==> r == Err::<u64, DelegationError>(
                DelegationError::DelegationCycleDetected,
            ),
    {
        let ghost edges = self.edges();
        let mut visited: HashSet<u64> = HashSet::new();
        let mut cur = start;
        let ghost mut k: nat = 0;
        loop
            invariant
                edges == self.edges(),
                cur == walk(edges, start, k),
                visited@.len() == k,
                visited@.finite(),
                visited@.subset_of(edges.dom()),
                forall|i: nat| i < k ==> edges.contains_key(#[trigger] walk(edges, start, i)),
                forall|i: nat| i < k ==> visited@.contains(#[trigger] walk(edges, start, i)),
                forall|x: u64| #[trigger] visited@.contains(x) ==> exists|i: nat| i < k && walk(edges, start, i) == x,
            decreases edges.dom().len() - k,
        {
            match self.delegates_of.get(&cur) {
                None => {
                    proof {
                        lemma_sink_of_is_end(edges, start, k);
                    }
                    return Ok(cur);
                },
                Some(next) => {
                    if visited.contains(&cur) {
                        proof {
                            let i = choose|i: nat| i < k && walk(edges, start, i) == cur;
                            lemma_revisit_never_ends(edges, start, i, k);
                        }
                        return Err(DelegationError::DelegationCycleDetected);
                    }
                    visited.insert(cur);
                    proof {
                        vstd::set_lib::lemma_len_subset(visited@, edges.dom());
                        lemma_walk_split(edges, start, k, 1);
                        assert(walk(edges, cur, 1) == walk(edges, edges[cur], 0));
                        assert(walk(edges, start, k + 1) == edges[cur]);
                        assert forall|x: u64| #[trigger] visited@.contains(x) implies exists|i: nat|
                            i < k + 1 && walk(edges, start, i) == x by {
                            if x == cur {
                                assert(walk(edges, start, k) == x);
                            }
                        }
                    }
                    cur = *next;
                    proof {
                        k = k + 1;
                    }
                },
            }
        }
    }

    /// Each account paired with the end of its delegation chain, in the
    /// order given. Fails when any of the chains never ends, which cannot
    /// happen in a well-formed store.
    pub fn tally_delegation(&self, accounts: Vec<u64>) -> (r: Result<Vec<(u64, u64)>, DelegationError>)
        ensures
            self.wf() ==> r is Ok,
            match r {
                Ok(v) => {
                    &&& v.len() == accounts.len()
                    &&& forall|i: int| 0 <= i < accounts.len() ==> has_sink(self.edges(), #[trigger] accounts@[i])
                    &&& forall|i: int| 0 <= i < accounts.len() ==> #[trigger] v@[i] == (
                        accounts@[i],
                        sink_of(self.edges(), accounts@[i]),
                    )
                },
                Err(e) => {
                    &&& e == DelegationError::DelegationCycleDetected
                    &&& exists|i: int| 0 <= i < accounts.len() && !has_sink(self.edges(), #[trigger] accounts@[i])
                },
            },
    {
        let mut out: Vec<(u64, u64)> = Vec::new();
        let mut i: usize = 0;
        while i < accounts.len()
            invariant
                i <= accounts.len(),
                out.len() == i,
                forall|j: int| 0 <= j < i ==> has_sink(self.edges(), #[trigger] accounts@[j]),
                forall|j: int| 0 <= j < i ==> #[trigger] out@[j] == (
                    accounts@[j],
                    sink_of(self.edges(), accounts@[j]),
                ),
            decreases accounts.len() - i,
        {
            let a = accounts[i];
            match self.get_sink_delegator(a) {
                Ok(s) => {
                    out.push((a, s));
                },
                Err(e) => {
                    return Err(e);
                },
            }
            i += 1;
        }
        Ok(out)
    }
}

} // verus!

use vstd::prelude::*;

use std::collections::BTreeMap;
use vstd::string::StringSliceAdditionalSpecFns;

verus! {

broadcast use vstd::laws_cmp::group_laws_cmp, vstd::std_specs::btree::group_btree_axioms;

/// The hash of a host name's bytes: the key of the routing table.
pub uninterp spec fn host_hash(b: Seq<u8>) -> u64;

/// Relies on `BuildHasher::hash_one` of std over `DefaultHasher`, whose keys
/// are fixed: the hash of a byte string depends on its bytes alone.
#[verifier::external_body]
pub fn hash(input: &[u8]) -> (r: u64)
    ensures
        r == host_hash(input@),
{
    std::hash::BuildHasher::hash_one(
        &std::hash::BuildHasherDefault::<std::collections::hash_map::DefaultHasher>::default(),
        input,
    )
}

/// An upstream address: an IPv4 or IPv6 address and a port.
#[derive(Debug, Clone, Copy, PartialEq, Eq)]
pub enum SocketAddress {
    V4([u8; 4], u16),
    V6([u16; 8], u16),
}

/// A round-robin selector over one or more upstream addresses. The cursor
/// is the fetch-and-increment counter kept modulo the number of addresses,
/// so it never wraps around unevenly.
pub struct Balancer {
    counter: usize,
    addrs: Vec<SocketAddress>,
}

impl Balancer {
    pub closed spec fn wf(&self) -> bool {
        &&& self.addrs@.len() > 0
        &&& self.counter < self.addrs@.len()
    }

    /// The addresses, in order.
    pub closed spec fn addrs(&self) -> Seq<SocketAddress> {
        self.addrs@
    }

    /// The index of the address that the next call chooses.
    pub closed spec fn cursor(&self) -> int {
        self.counter as int
    }

    /// A well-formed balancer's cursor indexes one of its addresses.
    pub proof fn lemma_cursor_in_range(&self)
        requires
            self.wf(),
        ensures
            0 <= self.cursor() < self.addrs().len(),
    {
    }

    pub fn new(addrs: Vec<SocketAddress>) -> (r: Self)
        requires
            addrs@.len() > 0,
        ensures
            r.wf(),
            r.addrs() == addrs@,
            r.cursor() == 0,
            0 <= r.cursor() < r.addrs().len(),
    {
        Balancer { counter: 0, addrs }
    }

    /// Chooses the address at the cursor and moves the cursor on by one,
    /// modulo the number of addresses.
    pub fn route(&mut self) -> (r: SocketAddress)
        requires
            old(self).wf(),
        ensures
            final(self).wf(),
            0 <= old(self).cursor() < old(self).addrs().len(),
            0 <= final(self).cursor() < final(self).addrs().len(),
            old(self).addrs().contains(r),
            final(self).addrs() == old(self).addrs(),
            r == old(self).addrs()[old(self).cursor()],
            final(self).cursor() == (old(self).cursor() + 1) % (old(self).addrs().len() as int),
    {
        let current = self.counter;
        let addr = self.addrs[current];
        let len = self.addrs.len();
        if current == len - 1 {
            self.counter = 0;
            proof {
                vstd::arithmetic::div_mod::lemma_mod_self_0(len as int);
            }
        } else {
            self.counter = current + 1;
            proof {
                vstd::arithmetic::div_mod::lemma_small_mod((current + 1) as nat, len as nat);
            }
        }
        addr
    }
}

/// The cursor of a balancer over `n` addresses after `j` calls of `route`,
/// starting from cursor `c`: each call moves it on by one, modulo `n`.
pub open spec fn cursor_after(c: int, n: int, j: nat) -> int
    decreases j,
{
    if j == 0 {
        c
    } else {
        (cursor_after(c, n, (j - 1) as nat) + 1) % n
    }
}

/// How many of the first `m` calls, starting from cursor `c`, choose the
/// address at index `i`.
pub open spec fn dispatches(c: int, n: int, m: nat, i: int) -> nat
    decreases m,
{
    if m == 0 {
        0
    } else {
        dispatches(c, n, (m - 1) as nat, i) + if cursor_after(c, n, (m - 1) as nat) == i {
            1nat
        } else {
            0nat
        }
    }
}

proof fn lemma_cursor_within_cycle(c: int, n: int, j: nat)
    requires
        0 <= c < n,
        j <= n,
    ensures
        cursor_after(c, n, j) == if c + j < n {
            c + j
        } else {
            c + j - n
        },
    decreases j,
{
    if j > 0 {
        lemma_cursor_within_cycle(c, n, (j - 1) as nat);
        let prev = cursor_after(c, n, (j - 1) as nat);
        if prev + 1 < n {
            vstd::arithmetic::div_mod::lemma_small_mod((prev + 1) as nat, n as nat);
        } else {
            vstd::arithmetic::div_mod::lemma_mod_self_0(n);
        }
    }
}

proof fn lemma_cursor_split(c: int, n: int, a: nat, b: nat)
    ensures
        cursor_after(c, n, a + b) == cursor_after(cursor_after(c, n, a), n, b),
    decreases b,
{
    if b > 0 {
        lemma_cursor_split(c, n, a, (b - 1) as nat);
        assert((a + b - 1) as nat == a + (b - 1) as nat);
    }
}

proof fn lemma_dispatches_split(c: int, n: int, a: nat, b: nat, i: int)
    ensures
        dispatches(c, n, a + b, i) == dispatches(c, n, a, i) + dispatches(
            cursor_after(c, n, a),
            n,
            b,
            i,
        ),
    decreases b,
{
    if b > 0 {
        lemma_dispatches_split(c, n, a, (b - 1) as nat, i);
        lemma_cursor_split(c, n, a, (b - 1) as nat);
        assert((a + b - 1) as nat == a + (b - 1) as nat);
    }
}

proof fn lemma_one_cycle(c: int, n: int, m: nat, i: int)
    requires
        0 <= c < n,
        0 <= i < n,
        m <= n,
    ensures
        dispatches(c, n, m, i) == if (if i >= c {
            i - c
        } else {
            i - c + n
        }) < m {
            1nat
        } else {
            0nat
        },
    decreases m,
{
    if m > 0 {
        lemma_one_cycle(c, n, (m - 1) as nat, i);
        lemma_cursor_within_cycle(c, n, (m - 1) as nat);
    }
}

proof fn lemma_cycles_return(c: int, n: int, k: nat)
    requires
        0 <= c < n,
    ensures
        cursor_after(c, n, (k * n) as nat) == c,
    decreases k,
{
    if k == 0 {
        assert(k * n == 0);
    } else {
        lemma_cycles_return(c, n, (k - 1) as nat);
        let before: nat = ((k - 1) as nat * n) as nat;
        assert(before == (k - 1) as nat * n && k * n == before + n) by (nonlinear_arith)
            requires
                k > 0,
                n > 0,
                before == ((k - 1) as nat * n) as nat,
        ;
        lemma_cursor_split(c, n, before, n as nat);
        lemma_cursor_within_cycle(c, n, n as nat);
    }
}

/// Round robin: over `k * n` successive calls of `route` on a balancer of
/// `n` addresses, whatever its cursor, each address is chosen exactly `k`
/// times.
pub proof fn lemma_round_robin(c: int, n: int, k: nat, i: int)
    requires
        0 <= c < n,
        0 <= i < n,
    ensures
        dispatches(c, n, (k * n) as nat, i) == k,
    decreases k,
{
    if k == 0 {
        assert(k * n == 0);
    } else {
        lemma_round_robin(c, n, (k - 1) as nat, i);
        let before: nat = ((k - 1) as nat * n) as nat;
        assert(before == (k - 1) as nat * n && k * n == before + n) by (nonlinear_arith)
            requires
                k > 0,
                n > 0,
                before == ((k - 1) as nat * n) as nat,
        ;
        lemma_dispatches_split(c, n, before, n as nat, i);
        lemma_cycles_return(c, n, (k - 1) as nat);
        lemma_one_cycle(c, n, n as nat, i);
    }
}

/// A host name and the upstream addresses that serve it.
pub struct Host {
    pub name: Vec<u8>,
    pub addrs: Vec<SocketAddress>,
}

/// The routing table that a list of hosts makes: each host's hashed name
/// maps to its addresses, a later host replacing an earlier one of the same
/// hash.
pub open spec fn host_table(hosts: Seq<Host>) -> Map<u64, Seq<SocketAddress>>
    decreases hosts.len(),
{
    if hosts.len() == 0 {
        Map::empty()
    } else {
        host_table(hosts.drop_last()).insert(
            host_hash(hosts.last().name@),
            hosts.last().addrs@,
        )
    }
}

/// The server's settings and the routing table from host hash to balancer.
pub struct AppState {
    routes: BTreeMap<u64, usize>,
    balancers: Vec<Balancer>,
    pub addr: String,
    pub thread: usize,
}

impl AppState {
    pub closed spec fn wf(&self) -> bool {
        &&& forall|h: u64| #[trigger]
            self.routes@.contains_key(h) ==> self.routes@[h] < self.balancers@.len()
        &&& forall|i: int| 0 <= i < self.balancers@.len() ==> (#[trigger] self.balancers@[i]).wf()
        &&& forall|a: u64, b: u64|
            #[trigger] self.routes@.contains_key(a) && #[trigger] self.routes@.contains_key(b) && a
                != b ==> self.routes@[a] != self.routes@[b]
    }

    /// The address the server listens on.
    pub closed spec fn listen_addr(&self) -> String {
        self.addr
    }

    /// The number of workers.
    pub closed spec fn thread_count(&self) -> usize {
        self.thread
    }

    /// The routing table: each known host hash and its addresses.
    pub closed spec fn table(&self) -> Map<u64, Seq<SocketAddress>> {
        Map::new(
            |h: u64| self.routes@.contains_key(h),
            |h: u64| self.balancers@[self.routes@[h] as int].addrs(),
        )
    }

    /// The index of the address that the next request for `h` goes to.
    /// Every known host's cursor indexes one of its addresses.
    pub open spec fn cursors_in_range(&self) -> bool {
        forall|h: u64| #[trigger]
            self.table().contains_key(h) ==> 0 <= self.cursor(h) < self.table()[h].len()
    }

    /// A well-formed table's cursors index the hosts' addresses.
    pub proof fn lemma_cursors_in_range(&self)
        requires
            self.wf(),
        ensures
            self.cursors_in_range(),
    {
        assert forall|h: u64| #[trigger] self.table().contains_key(h) implies 0 <= self.cursor(h)
            < self.table()[h].len() by {
            assert(self.balancers@[self.routes@[h] as int].wf());
        }
    }

    pub closed spec fn cursor(&self, h: u64) -> int {
        self.balancers@[self.routes@[h] as int].cursor()
    }

    /// Builds the table from the hosts, in order; every host needs at least
    /// one address.
    pub fn new(addr: String, thread: usize, hosts: Vec<Host>) -> (r: Self)
        requires
            forall|i: int| 0 <= i < hosts@.len() ==> (#[trigger] hosts@[i]).addrs@.len() > 0,
        ensures
            r.wf(),
            r.cursors_in_range(),
            r.table() == host_table(hosts@),
            forall|h: u64| #[trigger] r.table().contains_key(h) ==> r.cursor(h) == 0,
            r.listen_addr() == addr,
            r.thread_count() == thread,
    {
        let ghost all = hosts@;
        let mut rest = hosts;
        let mut state = AppState { routes: BTreeMap::new(), balancers: Vec::new(), addr, thread };
        let ghost done: Seq<Host> = Seq::empty();
        while rest.len() > 0
            invariant
                all == done + rest@,
                forall|i: int| 0 <= i < rest@.len() ==> (#[trigger] rest@[i]).addrs@.len() > 0,
                state.wf(),
                state.table() == host_table(done),
                forall|i: int| 0 <= i < state.balancers@.len() ==> (#[trigger] state.balancers@[i]).cursor() == 0,
                state.addr == addr,
                state.thread == thread,
            decreases rest@.len(),
        {
            let ghost before = state;
            let host = rest.remove(0);
            assert(host == all[done.len() as int]);
            let key = hash(host.name.as_slice());
            let index = state.balancers.len();
            let Host { name, addrs } = host;
            assert(addrs@.len() > 0);
            state.balancers.push(Balancer::new(addrs));
            state.routes.insert(key, index);
            proof {
                let d2 = done.push(host);
                assert(d2.drop_last() =~= done);
                assert(all =~= d2 + rest@);
                done = d2;
            }
            assert(state.table() =~= host_table(done));
        }
        assert(done =~= all);
        proof {
            state.lemma_cursors_in_range();
        }
        state
    }

    /// The address for a hashed host name: the next one of its balancer,
    /// whose cursor moves on; `None` for an unknown host.
    pub fn route(&mut self, domain: u64) -> (r: Option<SocketAddress>)
        requires
            old(self).wf(),
        ensures
            final(self).wf(),
            final(self).cursors_in_range(),
            r matches Some(a) ==> old(self).table()[domain].contains(a),
            final(self).table() == old(self).table(),
            final(self).listen_addr() == old(self).listen_addr(),
            final(self).thread_count() == old(self).thread_count(),
            old(self).table().contains_key(domain) ==> {
                &&& r == Some(old(self).table()[domain][old(self).cursor(domain)])
                &&& final(self).cursor(domain) == (old(self).cursor(domain) + 1) % (old(
                    self,
                ).table()[domain].len() as int)
            },
            !old(self).table().contains_key(domain) ==> r is None,
            forall|h: u64|
                h != domain && #[trigger] old(self).table().contains_key(h) ==> final(self).cursor(
                    h,
                ) == old(self).cursor(h),
    {
        match self.routes.get(&domain) {
            Some(i) => {
                let index = *i;
                assert(self.balancers@[index as int].wf());
                let addr = self.balancers[index].route();
                proof {
                    assert forall|j: int| 0 <= j < self.balancers@.len() implies (#[trigger] self.balancers@[j]).wf() by {
                        if j != index {
                            assert(self.balancers@[j] == old(self).balancers@[j]);
                        }
                    }
                    assert(self.table() =~= old(self).table());
                    assert forall|h: u64|
                        h != domain && #[trigger] old(self).table().contains_key(h) implies self.cursor(h)
                        == old(self).cursor(h) by {
                        if self.routes@[h] != index {
                            assert(self.balancers@[self.routes@[h] as int] == old(self).balancers@[self.routes@[h] as int]);
                        }
                    }
                    self.lemma_cursors_in_range();
                }
                Some(addr)
            },
            None => {
                proof {
                    self.lemma_cursors_in_range();
                }
                None
            },
        }
    }

    /// The hash under which a host name is routed.
    pub fn hash(&self, domain: &str) -> (r: u64)
        ensures
            r == host_hash(domain.spec_bytes()),
    {
        hash(domain.as_bytes())
    }
}

} // verus!

use vstd::prelude::*;
use crate::types::RecordBatch;

verus! {

/// The partition of `n` that hash `x` falls into: the hash space is cut
/// into `n` equal ranges, the last one taking the remainder.
pub open spec fn spec_server_for_hash(x: u64, n: usize) -> int {
    let range_size = u64::MAX as int / n as int;
    let idx = x as int / range_size;
    if idx < n - 1 { idx } else { n - 1 }
}

/// Picks the downstream partition, out of `n`, that a record with hash
/// `x` is sent to.
pub fn server_for_hash(x: u64, n: usize) -> (r: usize)
    requires
        n >= 1,
    ensures
        r as int == spec_server_for_hash(x, n),
        r < n,
{
    let range_size: u64 = u64::MAX / (n as u64);
    proof {
        assert(range_size >= 1) by (nonlinear_arith)
            requires range_size == u64::MAX as int / n as int, 1 <= n <= usize::MAX, usize::MAX <= u64::MAX;
    }
    let idx: u64 = x / range_size;
    if idx < (n - 1) as u64 {
        idx as usize
    } else {
        n - 1
    }
}

/// What `ahash` gives for byte string `key` under the four seeds.
pub uninterp spec fn seeded_hash(k0: u64, k1: u64, k2: u64, k3: u64, key: Seq<u8>) -> u64;

/// Relies on `ahash::RandomState::with_seeds` and `RandomState::hash_one`:
/// states built from the same seeds produce identical hashers, so within
/// one build of the crate the hash depends on the seeds and the bytes alone
/// (ahash gives no such promise across versions or target platforms).
#[verifier::external_body]
fn ahash_bytes(k0: u64, k1: u64, k2: u64, k3: u64, key: &[u8]) -> (r: u64)
    ensures
        r == seeded_hash(k0, k1, k2, k3, key@),
{
    ahash::RandomState::with_seeds(k0, k1, k2, k3).hash_one(key)
}

/// Relies on `rand::random`: a `u64` drawn from the thread-local generator;
/// nothing is known of its value.
#[verifier::external_body]
fn random_u64() -> (r: u64) {
    rand::random::<u64>()
}

/// Seeds of the key hash, fixed so that the tasks of a job that run one
/// build send a key to the same partition, in every process of theirs.
pub const KEY_SEED_0: u64 = 0x243f_6a88_85a3_08d3;
pub const KEY_SEED_1: u64 = 0x1319_8a2e_0370_7344;
pub const KEY_SEED_2: u64 = 0xa409_3822_299f_31d0;
pub const KEY_SEED_3: u64 = 0x082e_fa98_ec4e_6c89;

/// The hash under which a partition key is routed.
pub open spec fn key_hash(key: Seq<u8>) -> u64 {
    seeded_hash(KEY_SEED_0, KEY_SEED_1, KEY_SEED_2, KEY_SEED_3, key)
}

/// Hashes a partition key for routing.
pub fn hash_key(key: &Vec<u8>) -> (r: u64)
    ensures
        r == key_hash(key@),
{
    ahash_bytes(KEY_SEED_0, KEY_SEED_1, KEY_SEED_2, KEY_SEED_3, key.as_slice())
}

/// A downstream queue: the index of the downstream operator and the
/// partition (task) of that operator.
#[derive(Clone, Copy, Debug, PartialEq, Eq, Structural)]
pub struct Destination {
    pub operator: usize,
    pub partition: usize,
}

/// Where a record with hash `h` goes: one partition of each downstream
/// operator, chosen by [`spec_server_for_hash`].
pub open spec fn route(parallelism: Seq<usize>, h: u64) -> Seq<Destination> {
    Seq::new(
        parallelism.len(),
        |i: int| Destination { operator: i as usize, partition: spec_server_for_hash(h, parallelism[i]) as usize },
    )
}

/// Every queue of every downstream operator, operator by operator.
pub open spec fn all_queues(parallelism: Seq<usize>) -> Seq<Destination>
    decreases parallelism.len(),
{
    if parallelism.len() == 0 {
        Seq::empty()
    } else {
        let last = parallelism.len() - 1;
        all_queues(parallelism.drop_last()) + Seq::new(
            parallelism.last() as nat,
            |j: int| Destination { operator: last as usize, partition: j as usize },
        )
    }
}

/// Why a batch could not be routed.
#[derive(Clone, Copy, Debug, PartialEq, Eq, Structural)]
pub enum RoutingError {
    /// Keyed routing takes batches of exactly one row.
    NotSingleRow,
}

/// The state of an [`ArrowCollector`] as plain values.
pub struct CollectorView {
    pub parallelism: Seq<usize>,
    pub keyed: bool,
    pub sent_messages: u64,
}

/// Decides which downstream queues receive each outgoing message, and
/// counts what is sent.
pub struct ArrowCollector {
    out_parallelism: Vec<usize>,
    keyed: bool,
    sent_messages: u64,
}

impl View for ArrowCollector {
    type V = CollectorView;

    closed spec fn view(&self) -> CollectorView {
        CollectorView {
            parallelism: self.out_parallelism@,
            keyed: self.keyed,
            sent_messages: self.sent_messages,
        }
    }
}

/// Every downstream operator has at least one partition.
pub open spec fn parallelism_ok(p: Seq<usize>) -> bool {
    forall|i: int| 0 <= i < p.len() ==> #[trigger] p[i] >= 1
}

/// Adds `n` to a message counter, stopping at the largest value.
pub open spec fn bump(c: u64, n: int) -> u64 {
    if c + n <= u64::MAX {
        (c + n) as u64
    } else {
        u64::MAX
    }
}

impl ArrowCollector {
    /// A collector for downstream operators with the given parallelism;
    /// `keyed` tells whether records are routed by their key.
    pub fn new(out_parallelism: Vec<usize>, keyed: bool) -> (c: ArrowCollector)
        requires
            parallelism_ok(out_parallelism@),
        ensures
            c@.parallelism == out_parallelism@,
            c@.keyed == keyed,
            c@.sent_messages == 0,
    {
        ArrowCollector { out_parallelism, keyed, sent_messages: 0 }
    }

    /// The number of messages handed to downstream queues so far.
    pub fn sent_messages(&self) -> (r: u64)
        ensures
            r == self@.sent_messages,
    {
        self.sent_messages
    }

    fn count(&mut self, n: usize)
        ensures
            final(self)@.sent_messages == bump(old(self)@.sent_messages, n as int),
            final(self)@.parallelism == old(self)@.parallelism,
            final(self)@.keyed == old(self)@.keyed,
    {
        self.sent_messages = self.sent_messages.saturating_add(n as u64);
    }

    /// The queues that a record with hash `h` goes to.
    pub fn route_hash(&self, h: u64) -> (r: Vec<Destination>)
        requires
            parallelism_ok(self@.parallelism),
        ensures
            r@ == route(self@.parallelism, h),
    {
        let mut r: Vec<Destination> = Vec::new();
        let mut i: usize = 0;
        while i < self.out_parallelism.len()
            invariant
                i <= self.out_parallelism@.len(),
                parallelism_ok(self.out_parallelism@),
                r@ =~= route(self.out_parallelism@, h).subrange(0, i as int),
            decreases self.out_parallelism.len() - i,
        {
            let p = server_for_hash(h, self.out_parallelism[i]);
            r.push(Destination { operator: i, partition: p });
            i = i + 1;
        }
        r
    }

    /// Routes a batch: a keyed batch of one row goes to the partition its
    /// key hashes to; an unkeyed batch to a partition drawn at random. In
    /// both cases each downstream operator gets one copy.
    pub fn collect(&mut self, batch: &RecordBatch) -> (r: Result<Vec<Destination>, RoutingError>)
        requires
            parallelism_ok(old(self)@.parallelism),
        ensures
            final(self)@.parallelism == old(self)@.parallelism,
            final(self)@.keyed == old(self)@.keyed,
            old(self)@.keyed && batch.rows@.len() != 1 ==> r == Err::<Vec<Destination>, RoutingError>(
                RoutingError::NotSingleRow,
            ) && final(self)@.sent_messages == old(self)@.sent_messages,
            old(self)@.keyed && batch.rows@.len() == 1 ==> (r matches Ok(d) && d@ == route(
                old(self)@.parallelism,
                key_hash(batch.rows@[0].key@),
            )),
            !old(self)@.keyed ==> (r matches Ok(d) && exists|h: u64|
                d@ == route(old(self)@.parallelism, h)),
            r matches Ok(d) ==> final(self)@.sent_messages == bump(
                old(self)@.sent_messages,
                d@.len() as int,
            ),
    {
        let h = if self.keyed {
            if batch.rows.len() != 1 {
                return Err(RoutingError::NotSingleRow);
            }
            hash_key(&batch.rows[0].key)
        } else {
            random_u64()
        };
        let d = self.route_hash(h);
        self.count(d.len());
        Ok(d)
    }

    /// The queues that a watermark, barrier or end-of-stream signal goes
    /// to: all of them.
    pub fn broadcast(&mut self) -> (r: Vec<Destination>)
        requires
            parallelism_ok(old(self)@.parallelism),
        ensures
            r@ == all_queues(old(self)@.parallelism),
            final(self)@.parallelism == old(self)@.parallelism,
            final(self)@.keyed == old(self)@.keyed,
            final(self)@.sent_messages == bump(old(self)@.sent_messages, r@.len() as int),
    {
        let r = self.queues();
        self.count(r.len());
        r
    }

    fn queues(&self) -> (r: Vec<Destination>)
        ensures
            r@ == all_queues(self@.parallelism),
    {
        let mut r: Vec<Destination> = Vec::new();
        let mut i: usize = 0;
        proof {
            assert(self.out_parallelism@.subrange(0, 0) =~= Seq::<usize>::empty());
        }
        while i < self.out_parallelism.len()
            invariant
                i <= self.out_parallelism@.len(),
                r@ == all_queues(self.out_parallelism@.subrange(0, i as int)),
            decreases self.out_parallelism.len() - i,
        {
            let n = self.out_parallelism[i];
            let ghost base = r@;
            let mut j: usize = 0;
            while j < n
                invariant
                    j <= n,
                    r@ =~= base + Seq::new(
                        j as nat,
                        |m: int| Destination { operator: i, partition: m as usize },
                    ),
                decreases n - j,
            {
                r.push(Destination { operator: i, partition: j });
                j = j + 1;
            }
            proof {
                let sub = self.out_parallelism@.subrange(0, i + 1);
                assert(sub.drop_last() =~= self.out_parallelism@.subrange(0, i as int));
            }
            i = i + 1;
        }
        proof {
            assert(self.out_parallelism@.subrange(0, self.out_parallelism@.len() as int)
                =~= self.out_parallelism@);
        }
        r
    }
}

/// The partition picked for any hash lies among the `n` partitions.
pub proof fn lemma_server_for_hash_in_range(h: u64, n: usize)
    requires
        n >= 1,
    ensures
        0 <= spec_server_for_hash(h, n) < n,
{
    let range_size = u64::MAX as int / n as int;
    assert(range_size >= 1) by (nonlinear_arith)
        requires range_size == u64::MAX as int / n as int, 1 <= n <= usize::MAX, usize::MAX <= u64::MAX;
    assert(h as int / range_size >= 0) by (nonlinear_arith)
        requires range_size >= 1, h >= 0;
}

/// Routing is stable: two single-row keyed batches with the same key are
/// sent to the same partition of each downstream operator, and that
/// partition exists.
pub proof fn lemma_routing_stable(parallelism: Seq<usize>, k1: Seq<u8>, k2: Seq<u8>)
    requires
        parallelism_ok(parallelism),
        k1 == k2,
    ensures
        route(parallelism, key_hash(k1)) == route(parallelism, key_hash(k2)),
        forall|i: int|
            0 <= i < parallelism.len() ==> (#[trigger] route(parallelism, key_hash(k1))[i]).partition
                < parallelism[i],
{
    assert forall|i: int|
        0 <= i < parallelism.len() implies (#[trigger] route(parallelism, key_hash(k1))[i]).partition
        < parallelism[i] by {
        lemma_server_for_hash_in_range(key_hash(k1), parallelism[i]);
    }
}

} // verus!

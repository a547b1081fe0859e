//! Block construction: appends key/value pairs in strictly increasing key
//! order into one contiguous buffer, sharing key prefixes between
//! neighbouring entries and recording periodic uncompressed restart
//! points, then finalizes the block with its restart-offset trailer.

use vstd::prelude::*;
use crate::comparator::SliceComparator;
use crate::util::coding::{
    fixed32_bytes, put_fixed32, put_varint32, varint_encoding, lemma_varint_encoding_len,
    ENDIANNESS,
};

verus! {

/// Construction-time options for a block builder.
pub struct Options<C: SliceComparator> {
    /// Every `block_restart_interval`-th entry stores its full key.
    pub block_restart_interval: usize,
    /// The order the added keys must increase in.
    pub comparator: C,
}

/// Length of the longest common prefix of `a` and `b`.
pub open spec fn common_prefix_len(a: Seq<u8>, b: Seq<u8>) -> nat
    decreases a.len(),
{
    if a.len() == 0 || b.len() == 0 || a[0] != b[0] {
        0
    } else {
        1 + common_prefix_len(a.skip(1), b.skip(1))
    }
}

/// The common prefix is a prefix of both sequences.
pub proof fn lemma_common_prefix_len_props(a: Seq<u8>, b: Seq<u8>)
    ensures
        common_prefix_len(a, b) <= a.len(),
        common_prefix_len(a, b) <= b.len(),
        forall|j: int| 0 <= j < common_prefix_len(a, b) ==> a[j] == b[j],
    decreases a.len(),
{
    if a.len() == 0 || b.len() == 0 || a[0] != b[0] {
    } else {
        lemma_common_prefix_len_props(a.skip(1), b.skip(1));
        assert forall|j: int| 0 <= j < common_prefix_len(a, b) implies a[j] == b[j] by {
            if j >= 1 {
                assert(a.skip(1)[j - 1] == b.skip(1)[j - 1]);
            }
        }
    }
}

/// A position that is a prefix match up to a first difference or an end
/// is exactly the common prefix length.
pub proof fn lemma_common_prefix_len_char(a: Seq<u8>, b: Seq<u8>, i: nat)
    requires
        i <= a.len(),
        i <= b.len(),
        forall|j: int| 0 <= j < i ==> a[j] == b[j],
        i == a.len() || i == b.len() || a[i as int] != b[i as int],
    ensures
        common_prefix_len(a, b) == i,
    decreases i,
{
    if i == 0 {
    } else {
        assert(a[0] == b[0]);
        assert forall|j: int| 0 <= j < i - 1 implies a.skip(1)[j] == b.skip(1)[j] by {
            assert(a.skip(1)[j] == a[j + 1]);
            assert(b.skip(1)[j] == b[j + 1]);
        }
        if i < a.len() && i < b.len() {
            assert(a.skip(1)[i - 1] == a[i as int]);
            assert(b.skip(1)[i - 1] == b[i as int]);
        }
        lemma_common_prefix_len_char(a.skip(1), b.skip(1), (i - 1) as nat);
    }
}

/// The key of the entry before index `i`, or nothing before the first.
pub open spec fn prev_key_of(entries: Seq<(Seq<u8>, Seq<u8>)>, i: nat) -> Seq<u8> {
    if i == 0 {
        Seq::empty()
    } else {
        entries[i - 1].0
    }
}

/// One stored entry: three varint32 header fields, the unshared key
/// suffix, then the raw value. A restart entry shares nothing.
pub open spec fn entry_encoding(
    prev_key: Seq<u8>,
    key: Seq<u8>,
    value: Seq<u8>,
    restart: bool,
) -> Seq<u8> {
    let shared = if restart {
        0
    } else {
        common_prefix_len(prev_key, key)
    };
    varint_encoding(shared) + varint_encoding((key.len() - shared) as nat) + varint_encoding(
        value.len(),
    ) + key.skip(shared as int) + value
}

/// The concatenated entries of a block, in order, each prefix-compressed
/// against its predecessor except at restart indices (multiples of the
/// restart interval).
pub open spec fn block_data_encoding(entries: Seq<(Seq<u8>, Seq<u8>)>, interval: nat) -> Seq<u8>
    decreases entries.len(),
{
    if entries.len() == 0 {
        Seq::empty()
    } else {
        let i = (entries.len() - 1) as nat;
        block_data_encoding(entries.take(i as int), interval) + entry_encoding(
            prev_key_of(entries, i),
            entries[i as int].0,
            entries[i as int].1,
            i % interval == 0,
        )
    }
}

/// The restart offsets a block of `entries` carries: the offset of every
/// `interval`-th entry, starting with offset zero.
pub open spec fn restart_offsets(entries: Seq<(Seq<u8>, Seq<u8>)>, interval: nat) -> Seq<nat>
    decreases entries.len(),
{
    if entries.len() == 0 {
        seq![0nat]
    } else {
        let i = (entries.len() - 1) as nat;
        let prev = restart_offsets(entries.take(i as int), interval);
        if i != 0 && i % interval == 0 {
            prev.push(block_data_encoding(entries.take(i as int), interval).len())
        } else {
            prev
        }
    }
}

/// The trailer holding each restart offset as a fixed32 word.
pub open spec fn block_trailer_encoding(offsets: Seq<nat>) -> Seq<u8>
    decreases offsets.len(),
{
    if offsets.len() == 0 {
        Seq::empty()
    } else {
        block_trailer_encoding(offsets.drop_last()) + fixed32_bytes(
            ENDIANNESS,
            offsets.last() as u32,
        )
    }
}

/// A finished block: the entries, the restart-offset array, and the
/// number of restart points as a final fixed32 word.
pub open spec fn block_encoding(entries: Seq<(Seq<u8>, Seq<u8>)>, interval: nat) -> Seq<u8> {
    let offsets = restart_offsets(entries, interval);
    block_data_encoding(entries, interval) + block_trailer_encoding(offsets) + fixed32_bytes(
        ENDIANNESS,
        offsets.len() as u32,
    )
}

/// The trailer takes four bytes per restart offset.
pub proof fn lemma_block_trailer_encoding_len(offsets: Seq<nat>)
    ensures
        block_trailer_encoding(offsets).len() == 4 * offsets.len(),
    decreases offsets.len(),
{
    if offsets.len() > 0 {
        lemma_block_trailer_encoding_len(offsets.drop_last());
    }
}

/// Appending an entry extends the data encoding by that entry's bytes.
pub proof fn lemma_block_data_encoding_push(
    es: Seq<(Seq<u8>, Seq<u8>)>,
    e: (Seq<u8>, Seq<u8>),
    k: nat,
)
    ensures
        block_data_encoding(es.push(e), k) == block_data_encoding(es, k) + entry_encoding(
            prev_key_of(es, es.len()),
            e.0,
            e.1,
            es.len() % k == 0,
        ),
{
    let p = es.push(e);
    assert(p.take(es.len() as int) =~= es);
    assert(p[es.len() as int] == e);
    if es.len() > 0 {
        assert(prev_key_of(p, es.len()) == prev_key_of(es, es.len()));
    }
}

/// Appending an entry extends the restart offsets exactly when the new
/// entry's index is a nonzero multiple of the interval.
pub proof fn lemma_restart_offsets_push(es: Seq<(Seq<u8>, Seq<u8>)>, e: (Seq<u8>, Seq<u8>), k: nat)
    ensures
        restart_offsets(es.push(e), k) == if es.len() != 0 && es.len() % k == 0 {
            restart_offsets(es, k).push(block_data_encoding(es, k).len())
        } else {
            restart_offsets(es, k)
        },
{
    let p = es.push(e);
    assert(p.take(es.len() as int) =~= es);
}

/// Every entry contributes at least its three header bytes.
pub proof fn lemma_block_data_encoding_min_len(es: Seq<(Seq<u8>, Seq<u8>)>, k: nat)
    ensures
        es.len() == 0 ==> block_data_encoding(es, k).len() == 0,
        es.len() > 0 ==> block_data_encoding(es, k).len() >= 3,
{
    if es.len() > 0 {
        let i = (es.len() - 1) as nat;
        lemma_varint_encoding_len(0);
        let restart = i % k == 0;
        let prev = prev_key_of(es, i);
        let key = es[i as int].0;
        let value = es[i as int].1;
        let shared: nat = if restart {
            0
        } else {
            common_prefix_len(prev, key)
        };
        lemma_varint_encoding_len(shared);
        lemma_varint_encoding_len((key.len() - shared) as nat);
        lemma_varint_encoding_len(value.len());
    }
}

/// Builds one block: entries go in through `add` in strictly increasing
/// key order, and `finish` closes the block with its restart trailer.
pub struct BlockBuilder<'a, C: SliceComparator> {
    pub options: &'a Options<C>,
    pub buffer: Vec<u8>,
    /// Offsets of the restart points recorded so far.
    pub restarts: Vec<u32>,
    /// Number of entries emitted since the last restart.
    pub counter: usize,
    /// Has `finish` been called since the last reset?
    pub finished: bool,
    pub last_key: Vec<u8>,
    /// The key/value pairs added since the last reset, in order.
    pub entries: Ghost<Seq<(Seq<u8>, Seq<u8>)>>,
}

impl<'a, C: SliceComparator> BlockBuilder<'a, C> {
    /// The configured restart interval.
    pub open spec fn interval(&self) -> nat {
        self.options.block_restart_interval as nat
    }

    /// The builder's state agrees with the model: the buffer holds
    /// exactly the encoding of the added entries, the recorded restarts
    /// are the model's restart offsets, keys are strictly increasing,
    /// and everything stays within 32-bit offsets.
    pub open spec fn wf(&self) -> bool {
        let k = self.interval();
        let es = self.entries@;
        &&& k >= 1
        &&& (es.len() == 0 ==> self.counter == 0)
        &&& (es.len() > 0 ==> self.counter as nat == (es.len() - 1) as nat % k + 1)
        &&& self.buffer@ == block_data_encoding(es, k)
        &&& self.restarts@.len() == restart_offsets(es, k).len()
        &&& (forall|j: int|
            0 <= j < self.restarts@.len() ==> self.restarts@[j] as nat == restart_offsets(es, k)[j])
        &&& self.last_key@ == prev_key_of(es, es.len())
        &&& (forall|j: int|
            0 <= j < es.len() ==> (#[trigger] es[j]).0.len() < 0x100000000 && es[j].1.len()
                < 0x100000000)
        &&& (forall|j: int|
            1 <= j < es.len() ==> self.options.comparator.cmp_spec(
                (#[trigger] es[j]).0,
                es[j - 1].0,
            ) > 0)
        &&& self.buffer@.len() + 4 * self.restarts@.len() + 4 <= 0xffffffff
    }

    /// A fresh builder over `options`, holding no entries.
    pub fn new(options: &'a Options<C>) -> (r: BlockBuilder<'a, C>)
        requires
            options.block_restart_interval >= 1,
        ensures
            r.wf(),
            !r.finished,
            r.entries@ == Seq::<(Seq<u8>, Seq<u8>)>::empty(),
            r.options == options,
    {
        let mut restarts: Vec<u32> = Vec::new();
        restarts.push(0);
        proof {
            assert(restarts@ =~= seq![0u32]);
        }
        BlockBuilder {
            buffer: Vec::new(),
            options,
            counter: 0,
            finished: false,
            restarts,
            last_key: Vec::new(),
            entries: Ghost(Seq::empty()),
        }
    }

    /// Resets the contents as if the builder were just constructed.
    pub fn reset(&mut self)
        requires
            old(self).interval() >= 1,
        ensures
            final(self).wf(),
            !final(self).finished,
            final(self).entries@ == Seq::<(Seq<u8>, Seq<u8>)>::empty(),
            final(self).options == old(self).options,
    {
        self.buffer = Vec::new();
        let mut restarts: Vec<u32> = Vec::new();
        restarts.push(0);
        proof {
            assert(restarts@ =~= seq![0u32]);
        }
        self.restarts = restarts;
        self.counter = 0;
        self.finished = false;
        self.last_key = Vec::new();
        proof {
            self.entries@ = Seq::empty();
        }
    }

    /// True iff no entry has been added since the last reset.
    pub fn empty(&self) -> (r: bool)
        requires
            self.wf(),
        ensures
            r <==> self.entries@.len() == 0,
    {
        proof {
            lemma_block_data_encoding_min_len(self.entries@, self.interval());
        }
        self.buffer.len() == 0
    }

    /// The size the block would have if finished now: the entry bytes,
    /// the restart array, and the restart count.
    pub fn current_size_estimate(&self) -> (r: usize)
        requires
            self.wf(),
        ensures
            r == block_encoding(self.entries@, self.interval()).len(),
    {
        proof {
            lemma_block_trailer_encoding_len(restart_offsets(self.entries@, self.interval()));
        }
        self.buffer.len() + self.restarts.len() * 4 + 4
    }

    /// Appends the restart-offset array and the restart count, marks the
    /// block finished, and returns the finished bytes. Until the next
    /// reset no further entry may be added.
    pub fn finish(&mut self) -> (r: Vec<u8>)
        requires
            old(self).wf(),
            !old(self).finished,
        ensures
            final(self).finished,
            r@ == block_encoding(old(self).entries@, old(self).interval()),
            final(self).buffer@ == r@,
            final(self).entries@ == old(self).entries@,
            final(self).options == old(self).options,
    {
        let ghost es = self.entries@;
        let ghost k = self.interval();
        let ghost offsets = restart_offsets(es, k);
        let num_restarts = self.restarts.len();
        let mut j: usize = 0;
        proof {
            assert(offsets.take(0) =~= Seq::<nat>::empty());
            assert(self.buffer@ =~= block_data_encoding(es, k) + block_trailer_encoding(
                offsets.take(0),
            ));
        }
        while j < num_restarts
            invariant
                num_restarts == self.restarts@.len(),
                self.restarts@.len() == offsets.len(),
                forall|t: int|
                    0 <= t < self.restarts@.len() ==> self.restarts@[t] as nat == offsets[t],
                j <= num_restarts,
                self.buffer@ == block_data_encoding(es, k) + block_trailer_encoding(
                    offsets.take(j as int),
                ),
                self.entries@ == es,
                self.options == old(self).options,
                self.interval() == k,
                self.finished == old(self).finished,
            decreases num_restarts - j,
        {
            let restart = self.restarts[j];
            put_fixed32(&mut self.buffer, restart);
            proof {
                let t = offsets.take(j + 1);
                assert(t.drop_last() =~= offsets.take(j as int));
                assert(t.last() == offsets[j as int]);
                assert(self.buffer@ =~= block_data_encoding(es, k) + block_trailer_encoding(
                    offsets.take(j + 1),
                ));
            }
            j = j + 1;
        }
        proof {
            assert(offsets.take(offsets.len() as int) =~= offsets);
        }
        put_fixed32(&mut self.buffer, num_restarts as u32);
        self.finished = true;
        proof {
            assert(self.buffer@ =~= block_encoding(es, k));
        }
        vstd::slice::slice_to_vec(self.buffer.as_slice())
    }

    /// Appends one key/value pair.
    ///
    /// The key must be strictly greater, under the configured comparator,
    /// than every key added since the last reset, `finish` must not have
    /// been called, and the grown block must still fit 32-bit offsets.
    #[verifier::rlimit(100)]
    #[verifier::spinoff_prover]
    pub fn add(&mut self, key: &[u8], value: &[u8])
        requires
            old(self).wf(),
            !old(self).finished,
            old(self).entries@.len() > 0 ==> old(self).options.comparator.cmp_spec(
                key@,
                old(self).last_key@,
            ) > 0,
            key@.len() < 0x100000000,
            value@.len() < 0x100000000,
            old(self).buffer@.len() + 15 + key@.len() + value@.len() + 4 * (
            old(self).restarts@.len() + 2) + 4 <= 0xffffffff,
        ensures
            final(self).wf(),
            !final(self).finished,
            final(self).entries@ == old(self).entries@.push((key@, value@)),
            final(self).options == old(self).options,
            final(self).last_key@ == key@,
    {
        let ghost es = self.entries@;
        let ghost k = self.interval();
        let ghost i = es.len();
        proof {
            if i > 0 {
                lemma_mod_increment((i - 1) as nat, k);
            }
        }
        let mut shared: usize = 0;
        if self.counter < self.options.block_restart_interval {
            // See how much prefix the new key shares with the previous one.
            let min_length = if self.last_key.len() < key.len() {
                self.last_key.len()
            } else {
                key.len()
            };
            while shared < min_length && self.last_key[shared] == key[shared]
                invariant
                    shared <= min_length,
                    min_length <= self.last_key@.len(),
                    min_length <= key@.len(),
                    min_length == self.last_key@.len() || min_length == key@.len(),
                    forall|j: int| 0 <= j < shared ==> self.last_key@[j] == key@[j],
                decreases min_length - shared,
            {
                shared = shared + 1;
            }
            proof {
                lemma_common_prefix_len_char(self.last_key@, key@, shared as nat);
            }
        } else {
            // Restart compression: record where this entry begins.
            self.restarts.push(self.buffer.len() as u32);
            self.counter = 0;
            proof {
                assert(i > 0 && i % k == 0);
            }
        }
        proof {
            lemma_common_prefix_len_props(self.last_key@, key@);
            assert(shared as nat == (if i % k == 0 {
                0nat
            } else {
                common_prefix_len(prev_key_of(es, i), key@)
            }));
        }
        let non_shared = key.len() - shared;
        // The entry header: shared, non-shared, and value lengths.
        put_varint32(&mut self.buffer, shared as u32);
        put_varint32(&mut self.buffer, non_shared as u32);
        put_varint32(&mut self.buffer, value.len() as u32);
        // The unshared key suffix, then the raw value.
        self.buffer.extend_from_slice(vstd::slice::slice_subrange(key, shared, key.len()));
        self.buffer.extend_from_slice(value);
        self.last_key = vstd::slice::slice_to_vec(key);
        self.counter = self.counter + 1;
        proof {
            let e = (key@, value@);
            let es2 = es.push(e);
            self.entries@ = es2;
            lemma_block_data_encoding_push(es, e, k);
            lemma_restart_offsets_push(es, e, k);
            lemma_varint_encoding_len(shared as nat);
            lemma_varint_encoding_len((key@.len() - shared) as nat);
            lemma_varint_encoding_len(value@.len());
            crate::util::coding::lemma_varint_len_bounds(shared as nat);
            crate::util::coding::lemma_varint_len_bounds((key@.len() - shared) as nat);
            crate::util::coding::lemma_varint_len_bounds(value@.len());
            assert(key@.subrange(shared as int, key@.len() as int) =~= key@.skip(shared as int));
            assert(self.buffer@ =~= block_data_encoding(es2, k));
            assert(es2[i as int] == e);
            assert forall|j: int|
                0 <= j < es2.len() implies (#[trigger] es2[j]).0.len() < 0x100000000
                && es2[j].1.len() < 0x100000000 by {
                if j < i {
                    assert(es2[j] == es[j]);
                }
            }
            assert forall|j: int|
                1 <= j < es2.len() implies self.options.comparator.cmp_spec(
                (#[trigger] es2[j]).0,
                es2[j - 1].0,
            ) > 0 by {
                if j < i {
                    assert(es2[j] == es[j] && es2[j - 1] == es[j - 1]);
                } else {
                    assert(es2[j] == e);
                    if i > 0 {
                        assert(es2[j - 1] == es[i - 1]);
                        assert(prev_key_of(es, i) == es[i - 1].0);
                    }
                }
            }
        }
    }
}

/// Stepping an index forward steps its remainder forward, wrapping to
/// zero at a multiple of the modulus.
proof fn lemma_mod_increment(i: nat, k: nat)
    requires
        k >= 1,
    ensures
        (i % k == k - 1 ==> (i + 1) % k == 0),
        (i % k < k - 1 ==> (i + 1) % k == i % k + 1),
{
    assert((i % k == k - 1 ==> (i + 1) % k == 0) && (i % k < k - 1 ==> (i + 1) % k == i % k + 1))
        by (nonlinear_arith)
        requires
            k >= 1,
    ;
}

/// Restart boundary law: the `j`-th recorded restart offset of a built
/// block is exactly the offset of entry `j * interval`, so restart
/// points occur precisely every `interval` entries, starting with entry
/// zero. With an interval of one, every entry is a restart point and
/// shares nothing with its predecessor.
pub proof fn lemma_restart_points_every_interval(entries: Seq<(Seq<u8>, Seq<u8>)>, k: nat)
    requires
        k >= 1,
    ensures
        forall|j: int|
            0 <= j < restart_offsets(entries, k).len() ==> #[trigger] restart_offsets(entries, k)[j]
                == block_data_encoding(entries.take(j * (k as int)), k).len(),
        entries.len() > 0 ==> restart_offsets(entries, k).len() == 1 + (entries.len() - 1) / (
        k as int),
        entries.len() == 0 ==> restart_offsets(entries, k).len() == 1,
    decreases entries.len(),
{
    let offsets = restart_offsets(entries, k);
    let n = entries.len() as int;
    if n == 0 {
        assert(entries.take(0) =~= entries);
        assert(offsets[0] == 0);
        assert forall|j: int| 0 <= j < restart_offsets(entries, k).len()
            implies #[trigger] restart_offsets(entries, k)[j] == block_data_encoding(
            entries.take(j * (k as int)),
            k,
        ).len() by {
            assert(j == 0);
            assert(entries.take(0) =~= entries);
        }
    } else {
        let shorter = entries.take(n - 1);
        lemma_restart_points_every_interval(shorter, k);
        let prev = restart_offsets(shorter, k);
        assert(forall|m: int| 0 <= m <= n - 1 ==> #[trigger] shorter.take(m) =~= entries.take(m));
        if n - 1 != 0 && ((n - 1) as nat) % k == 0 {
            assert(offsets == prev.push(block_data_encoding(shorter, k).len()));
            let q = (n - 1) / (k as int);
            assert((n - 1) == q * (k as int) && q >= 1) by (nonlinear_arith)
                requires
                    k >= 1,
                    n - 1 >= 1,
                    ((n - 1) as nat) % k == 0,
                    q == (n - 1) / (k as int),
            ;
            assert((n - 1 - 1) / (k as int) == q - 1) by (nonlinear_arith)
                requires
                    k >= 1,
                    (n - 1) == q * (k as int),
                    q >= 1,
            ;
            assert(prev.len() == q);
            assert(offsets.len() == q + 1);
            assert((n - 1) / (k as int) == q);
            assert forall|j: int| 0 <= j < offsets.len() implies #[trigger] offsets[j]
                == block_data_encoding(entries.take(j * (k as int)), k).len() by {
                if j < prev.len() {
                    assert(offsets[j] == prev[j]);
                    assert(j * (k as int) <= (j + 1) * (k as int) - 1 <= n - 1) by (nonlinear_arith)
                        requires
                            k >= 1,
                            0 <= j < q,
                            (n - 1) == q * (k as int),
                    ;
                    assert(shorter.take(j * (k as int)) =~= entries.take(j * (k as int)));
                } else {
                    assert(j == q);
                    assert(q * (k as int) == n - 1);
                    assert(offsets[j] == block_data_encoding(shorter, k).len());
                }
            }
        } else {
            assert(offsets == prev);
            if n - 1 >= 1 {
                let q = (n - 1 - 1) / (k as int);
                assert((n - 1) / (k as int) == q) by (nonlinear_arith)
                    requires
                        k >= 1,
                        n - 1 >= 1,
                        ((n - 1) as nat) % k != 0,
                        q == (n - 1 - 1) / (k as int),
                ;
            }
            assert forall|j: int| 0 <= j < offsets.len() implies #[trigger] offsets[j]
                == block_data_encoding(entries.take(j * (k as int)), k).len() by {
                assert(offsets[j] == prev[j]);
                assert(prev[j] == block_data_encoding(shorter.take(j * (k as int)), k).len());
                assert(j * (k as int) <= n - 1) by {
                    if j * (k as int) > n - 1 {
                        if n == 1 {
                            assert(prev.len() == 1);
                            assert(j == 0);
                            assert(false);
                        } else {
                            let q = (n - 1 - 1) / (k as int);
                            assert(j <= q);
                            assert(q * (k as int) <= n - 2) by (nonlinear_arith)
                                requires
                                    k >= 1,
                                    n - 2 >= 0,
                                    q == (n - 1 - 1) / (k as int),
                            ;
                            assert(j * (k as int) <= q * (k as int)) by (nonlinear_arith)
                                requires
                                    k >= 1,
                                    0 <= j <= q,
                            ;
                            assert(false);
                        }
                    }
                }
                assert(shorter.take(j * (k as int)) =~= entries.take(j * (k as int)));
            }
        }
        assert forall|j: int| 0 <= j < restart_offsets(entries, k).len()
            implies #[trigger] restart_offsets(entries, k)[j] == block_data_encoding(
            entries.take(j * (k as int)),
            k,
        ).len() by {
            assert(offsets[j] == block_data_encoding(entries.take(j * (k as int)), k).len());
        }
    }
}

} // verus!

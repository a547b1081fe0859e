//! Block reading: decoding prefix-compressed entries and walking a
//! finished block with an ordered, seekable cursor.

use vstd::prelude::*;
use crate::comparator::SliceComparator;
use crate::errors::{RubbleError, RubbleResult};
use crate::status::Status;
use crate::table::block_builder::{
    block_data_encoding, block_encoding, block_trailer_encoding, common_prefix_len,
    entry_encoding, lemma_block_data_encoding_push, lemma_block_trailer_encoding_len,
    lemma_common_prefix_len_props, prev_key_of, restart_offsets,
};
use crate::util::coding::{
    decode_fixed32, fixed32_bytes, fixed32_value, get_varint32_ptr_fallback,
    lemma_fixed32_round_trip, lemma_varint_encoding_len, lemma_varint_len_bounds,
    lemma_varint_round_trip, varint_encoding, varint_len, varint_parse, ENDIANNESS,
};

verus! {

/// One parsed entry of a block: where it starts, how its header reads,
/// and the reconstructed key and value.
pub ghost struct EntryInfo {
    /// Offset of the entry's first header byte within the block.
    pub offset: nat,
    /// Bytes taken by the three varint32 header fields.
    pub header_len: nat,
    /// Bytes the key shares with the key before it.
    pub shared: nat,
    /// The full reconstructed key.
    pub key: Seq<u8>,
    /// The raw value bytes.
    pub value: Seq<u8>,
}

/// Where an entry's value begins: past the header and the key suffix.
pub open spec fn entry_value_offset(e: EntryInfo) -> nat {
    (e.offset + e.header_len + e.key.len() - e.shared) as nat
}

/// The offset just past an entry.
pub open spec fn entry_end(e: EntryInfo) -> nat {
    entry_value_offset(e) + e.value.len()
}

/// The header of the entry at the front of `p`: shared key bytes,
/// unshared key bytes, value length, and how many bytes the header
/// takes. `None` when fewer than three bytes remain, a header varint is
/// malformed or oversized, or the declared suffix and value overrun `p`.
pub open spec fn spec_decode_entry(p: Seq<u8>) -> Option<(nat, nat, nat, nat)> {
    if p.len() < 3 {
        None
    } else {
        match varint_parse(p, 5) {
            Some(p1) => if p1.0 > 0xffffffff {
                None
            } else {
                match varint_parse(p.skip(p1.1 as int), 5) {
                    Some(p2) => if p2.0 > 0xffffffff {
                        None
                    } else {
                        match varint_parse(p.skip((p1.1 + p2.1) as int), 5) {
                            Some(p3) => if p3.0 > 0xffffffff {
                                None
                            } else {
                                let hl = p1.1 + p2.1 + p3.1;
                                if p.len() - hl >= p2.0 + p3.0 {
                                    Some((p1.0, p2.0, p3.0, hl))
                                } else {
                                    None
                                }
                            },
                            None => None,
                        }
                    },
                    None => None,
                }
            },
            None => None,
        }
    }
}

/// Every decoded header takes at least three bytes and fits with its
/// suffix and value inside `p`.
pub proof fn lemma_spec_decode_entry_bounds(p: Seq<u8>)
    requires
        spec_decode_entry(p) is Some,
    ensures
        ({
            let (sh, nsh, vl, hl) = spec_decode_entry(p)->0;
            &&& 3 <= hl <= 15
            &&& hl + nsh + vl <= p.len()
        }),
{
    let p1 = varint_parse(p, 5)->0;
    let p2 = varint_parse(p.skip(p1.1 as int), 5)->0;
    let p3 = varint_parse(p.skip((p1.1 + p2.1) as int), 5)->0;
    lemma_varint_parse_consumed(p, 5);
    lemma_varint_parse_consumed(p.skip(p1.1 as int), 5);
    lemma_varint_parse_consumed(p.skip((p1.1 + p2.1) as int), 5);
}

/// A successful varint parse consumes between one and `max` bytes.
pub proof fn lemma_varint_parse_consumed(s: Seq<u8>, max: nat)
    requires
        varint_parse(s, max) is Some,
    ensures
        1 <= (varint_parse(s, max)->0).1 <= max,
        (varint_parse(s, max)->0).1 <= s.len(),
    decreases max,
{
    if s.len() != 0 && max != 0 && s[0] >= 128 {
        lemma_varint_parse_consumed(s.skip(1), (max - 1) as nat);
    }
}

/// The entries stored in `data` between `from` and `limit`, where the
/// entry at `from` is compressed against `prev`. `None` when any entry
/// is malformed, claims more shared bytes than its predecessor has, or
/// the region boundaries are themselves out of range.
pub open spec fn parse_entries(data: Seq<u8>, limit: nat, prev: Seq<u8>, from: nat) -> Option<
    Seq<EntryInfo>,
>
    decreases limit - from,
{
    if !(from <= limit && limit <= data.len()) {
        None
    } else if from == limit {
        Some(Seq::empty())
    } else {
        match spec_decode_entry(data.subrange(from as int, limit as int)) {
            None => None,
            Some((sh, nsh, vl, hl)) => {
                if sh > prev.len() {
                    None
                } else {
                    let key = prev.take(sh as int) + data.subrange(
                        (from + hl) as int,
                        (from + hl + nsh) as int,
                    );
                    let value = data.subrange(
                        (from + hl + nsh) as int,
                        (from + hl + nsh + vl) as int,
                    );
                    let e = EntryInfo { offset: from, header_len: hl, shared: sh, key, value };
                    match parse_entries(data, limit, key, from + hl + nsh + vl) {
                        None => None,
                        Some(rest) => Some(seq![e] + rest),
                    }
                }
            },
        }
    }
}

/// The entries of a whole block data region, starting uncompressed.
pub open spec fn block_entries(data: Seq<u8>, limit: nat) -> Option<Seq<EntryInfo>> {
    parse_entries(data, limit, Seq::empty(), 0)
}

/// The `j`-th restart offset stored in the trailer beginning at
/// `restarts`.
pub open spec fn spec_restart_point(data: Seq<u8>, restarts: nat, j: nat) -> nat {
    fixed32_value(ENDIANNESS, data.skip((restarts + 4 * j) as int)) as nat
}

/// The restart count stored in the last four bytes of `data`.
pub open spec fn spec_num_restarts(data: Seq<u8>) -> nat
    recommends
        data.len() >= 4,
{
    fixed32_value(ENDIANNESS, data.skip(data.len() - 4)) as nat
}

/// A structurally sound block: the data region parses into entries, the
/// trailer region is exactly the restart array plus its count, the first
/// restart offset is zero, every restart offset lands on an entry that
/// stores its full key, and the offsets strictly increase.
pub open spec fn wf_block(data: Seq<u8>, restarts: nat, num_restarts: nat) -> bool {
    &&& num_restarts >= 1
    &&& restarts + 4 * num_restarts + 4 == data.len()
    &&& block_entries(data, restarts) is Some
    &&& spec_num_restarts(data) == num_restarts
    &&& spec_restart_point(data, restarts, 0) == 0
    &&& (forall|j: int|
        0 <= j < num_restarts ==> #[trigger] restart_ok(
            data,
            restarts,
            block_entries(data, restarts)->0,
            j as nat,
        ))
    &&& (forall|j1: int, j2: int|
        0 <= j1 < j2 < num_restarts ==> #[trigger] spec_restart_point(data, restarts, j1 as nat)
            < #[trigger] spec_restart_point(data, restarts, j2 as nat))
}

/// The `j`-th restart offset names an entry that stores its full key, or
/// the block is empty and the offset is zero.
pub open spec fn restart_ok(data: Seq<u8>, restarts: nat, es: Seq<EntryInfo>, j: nat) -> bool {
    ||| (exists|t: int|
        0 <= t < es.len() && (#[trigger] es[t]).offset == spec_restart_point(data, restarts, j)
            && es[t].shared == 0)
    ||| (es.len() == 0 && spec_restart_point(data, restarts, j) == 0)
}

/// The keys of a parsed block are strictly increasing under `c`.
pub open spec fn entries_sorted<C: SliceComparator>(c: C, es: Seq<EntryInfo>) -> bool {
    forall|a: int, b: int|
        0 <= a < b < es.len() ==> c.cmp_spec((#[trigger] es[a]).key, (#[trigger] es[b]).key) < 0
}

/// The decoded header of one block entry: the byte range right past the
/// header, and the three header fields.
pub struct DecodedEntry<'a> {
    pub new_slice: &'a [u8],
    pub shared: u32,
    pub non_shared: u32,
    pub value_length: u32,
}

/// Decodes the next block entry starting at the front of `p`: the number
/// of shared and unshared key bytes and the value length, either as the
/// one-byte-each fast path or as three fallback varint32 fields. Fails
/// when fewer than three bytes remain or the declared lengths overrun
/// `p`; the caller turns that into a block corruption.
pub fn decode_entry<'a>(p: &'a [u8]) -> (r: RubbleResult<DecodedEntry<'a>>)
    ensures
        r is Ok <==> spec_decode_entry(p@) is Some,
        r is Ok ==> {
            let (sh, nsh, vl, hl) = spec_decode_entry(p@)->0;
            &&& r->Ok_0.shared == sh
            &&& r->Ok_0.non_shared == nsh
            &&& r->Ok_0.value_length == vl
            &&& r->Ok_0.new_slice@ == p@.skip(hl as int)
        },
{
    if p.len() < 3 {
        return Err(RubbleError::Other("entry missing header"));
    }
    let b0 = p[0];
    let b1 = p[1];
    let b2 = p[2];
    if b0 < 128 && b1 < 128 && b2 < 128 {
        // Fast path: all three header fields are one byte each.
        proof {
            assert(varint_parse(p@, 5) == Some((b0 as nat, 1nat)));
            assert(p@.skip(1)[0] == b1);
            assert(varint_parse(p@.skip(1), 5) == Some((b1 as nat, 1nat)));
            assert(p@.skip(2)[0] == b2);
            assert(p@.skip(1).skip(1) =~= p@.skip(2));
            assert(varint_parse(p@.skip(2), 5) == Some((b2 as nat, 1nat)));
        }
        if p.len() - 3 >= (b1 as usize) + (b2 as usize) {
            let new_slice = vstd::slice::slice_subrange(p, 3, p.len());
            Ok(
                DecodedEntry {
                    new_slice,
                    shared: b0 as u32,
                    non_shared: b1 as u32,
                    value_length: b2 as u32,
                },
            )
        } else {
            Err(RubbleError::Other("entry overruns block"))
        }
    } else {
        let f1 = match get_varint32_ptr_fallback(p) {
            Ok(f) => f,
            Err(e) => {
                return Err(e);
            },
        };
        proof {
            lemma_varint_parse_consumed(p@, 5);
        }
        let f2 = match get_varint32_ptr_fallback(f1.slice) {
            Ok(f) => f,
            Err(e) => {
                return Err(e);
            },
        };
        proof {
            let n1 = (varint_parse(p@, 5)->0).1;
            let n2 = (varint_parse(p@.skip(n1 as int), 5)->0).1;
            lemma_varint_parse_consumed(p@.skip(n1 as int), 5);
            vstd::seq_lib::lemma_seq_skip_of_skip(p@, n1 as int, n2 as int);
        }
        let f3 = match get_varint32_ptr_fallback(f2.slice) {
            Ok(f) => f,
            Err(e) => {
                return Err(e);
            },
        };
        proof {
            let n1 = (varint_parse(p@, 5)->0).1;
            let n2 = (varint_parse(p@.skip(n1 as int), 5)->0).1;
            let n3 = (varint_parse(p@.skip((n1 + n2) as int), 5)->0).1;
            lemma_varint_parse_consumed(p@.skip((n1 + n2) as int), 5);
            vstd::seq_lib::lemma_seq_skip_of_skip(p@, (n1 + n2) as int, n3 as int);
        }
        let shared = f1.value;
        let non_shared = f2.value;
        let value_length = f3.value;
        let remaining = f3.slice.len();
        if remaining >= non_shared as usize && remaining - (non_shared as usize)
            >= value_length as usize {
            Ok(DecodedEntry { new_slice: f3.slice, shared, non_shared, value_length })
        } else {
            Err(RubbleError::Other("entry overruns block"))
        }
    }
}

/// Structure of a parsed entry list: each entry's header decodes at its
/// offset, its key and value are the recorded byte ranges, entries tile
/// the region back to back, and the list past any entry parses from that
/// entry's key.
pub proof fn lemma_parse_entries_at(data: Seq<u8>, limit: nat, prev: Seq<u8>, from: nat, t: int)
    requires
        parse_entries(data, limit, prev, from) is Some,
        0 <= t < parse_entries(data, limit, prev, from)->0.len(),
    ensures
        ({
            let es = parse_entries(data, limit, prev, from)->0;
            let pk = if t == 0 {
                prev
            } else {
                es[t - 1].key
            };
            let e = es[t];
            &&& e.offset == (if t == 0 {
                from
            } else {
                entry_end(es[t - 1])
            })
            &&& from <= e.offset
            &&& e.offset + 3 <= entry_end(e)
            &&& entry_end(e) <= limit
            &&& e.shared <= pk.len()
            &&& e.key.len() >= e.shared
            &&& e.header_len + (e.key.len() - e.shared) + e.value.len() <= limit - e.offset
            &&& spec_decode_entry(data.subrange(e.offset as int, limit as int)) == Some(
                (e.shared, (e.key.len() - e.shared) as nat, e.value.len(), e.header_len),
            )
            &&& e.key == pk.take(e.shared as int) + data.subrange(
                (e.offset + e.header_len) as int,
                entry_value_offset(e) as int,
            )
            &&& e.value == data.subrange(entry_value_offset(e) as int, entry_end(e) as int)
            &&& parse_entries(data, limit, e.key, entry_end(e)) == Some(
                es.skip(t + 1),
            )
        }),
    decreases t,
{
    let es = parse_entries(data, limit, prev, from)->0;
    let (sh, nsh, vl, hl) = spec_decode_entry(data.subrange(from as int, limit as int))->0;
    lemma_spec_decode_entry_bounds(data.subrange(from as int, limit as int));
    let key0 = prev.take(sh as int) + data.subrange((from + hl) as int, (from + hl + nsh) as int);
    let value0 = data.subrange((from + hl + nsh) as int, (from + hl + nsh + vl) as int);
    let e0 = EntryInfo { offset: from, header_len: hl, shared: sh, key: key0, value: value0 };
    let rest = parse_entries(data, limit, key0, from + hl + nsh + vl)->0;
    assert(es == seq![e0] + rest);
    assert(es[0] == e0);
    assert(key0.len() == sh + nsh);
    assert(entry_value_offset(e0) == from + hl + nsh);
    assert(entry_end(e0) == from + hl + nsh + vl);
    if t == 0 {
        assert(es.skip(1) =~= rest);
    } else {
        lemma_parse_entries_at(data, limit, key0, from + hl + nsh + vl, t - 1);
        assert(es[t] == rest[t - 1]);
        assert(es[t - 1] == (if t - 1 == 0 {
            e0
        } else {
            rest[t - 2]
        }));
        assert(es.skip(t + 1) =~= rest.skip(t));
    }
}

/// Entry offsets strictly increase along a parsed entry list.
pub proof fn lemma_parse_entries_offsets_increase(
    data: Seq<u8>,
    limit: nat,
    prev: Seq<u8>,
    from: nat,
    t1: int,
    t2: int,
)
    requires
        parse_entries(data, limit, prev, from) is Some,
        0 <= t1 < t2 < parse_entries(data, limit, prev, from)->0.len(),
    ensures
        ({
            let es = parse_entries(data, limit, prev, from)->0;
            entry_end(es[t1]) <= es[t2].offset && es[t1].offset < es[t2].offset
        }),
    decreases t2 - t1,
{
    let es = parse_entries(data, limit, prev, from)->0;
    lemma_parse_entries_at(data, limit, prev, from, t1);
    lemma_parse_entries_at(data, limit, prev, from, t2);
    if t2 == t1 + 1 {
    } else {
        lemma_parse_entries_offsets_increase(data, limit, prev, from, t1 + 1, t2);
        lemma_parse_entries_at(data, limit, prev, from, t1 + 1);
    }
}

/// When the entry at `from` stores its full key, what was parsed before
/// it does not matter.
pub proof fn lemma_parse_entries_prev_irrelevant(
    data: Seq<u8>,
    limit: nat,
    prev1: Seq<u8>,
    prev2: Seq<u8>,
    from: nat,
)
    requires
        parse_entries(data, limit, prev1, from) is Some,
        from < limit,
        (parse_entries(data, limit, prev1, from)->0)[0].shared == 0,
    ensures
        parse_entries(data, limit, prev2, from) == parse_entries(data, limit, prev1, from),
{
    let (sh, nsh, vl, hl) = spec_decode_entry(data.subrange(from as int, limit as int))->0;
    let es = parse_entries(data, limit, prev1, from)->0;
    lemma_parse_entries_at(data, limit, prev1, from, 0);
    assert(sh == 0);
    assert(prev1.take(0) =~= prev2.take(0));
}

/// A cursor over one finished block's bytes: seekable by binary search
/// over the restart points, walkable forward entry by entry. It holds
/// only offsets into the immutable block data, so any number of
/// iterators may walk one block at once.
pub struct BlockIterator<'a, C: SliceComparator> {
    pub comparator: C,
    pub data: &'a [u8],
    /// Offset of the current entry's value bytes.
    pub value_offset: usize,
    pub value_len: usize,
    /// Offset of the restart array: the end of the entry region.
    pub restarts: usize,
    pub num_restarts: usize,
    /// Offset of the current entry, or `restarts` when not positioned.
    pub current: usize,
    pub restart_index: usize,
    /// The current entry's reconstructed key.
    pub key: Vec<u8>,
    pub status: Status,
    /// Index of the current entry among the block's parsed entries.
    pub pos: Ghost<nat>,
}

impl<'a, C: SliceComparator> BlockIterator<'a, C> {
    /// True iff the cursor stands on an entry.
    pub open spec fn valid_spec(&self) -> bool {
        self.current < self.restarts
    }

    /// The block under this iterator is structurally sound.
    pub open spec fn wf(&self) -> bool {
        wf_block(self.data@, self.restarts as nat, self.num_restarts as nat)
    }

    /// The entries of the block under this iterator.
    pub open spec fn entries(&self) -> Seq<EntryInfo> {
        block_entries(self.data@, self.restarts as nat)->0
    }

    /// Where the entry after the current one starts.
    pub open spec fn next_off(&self) -> nat {
        (self.value_offset + self.value_len) as nat
    }

    /// On a sound block, a positioned cursor stands exactly on entry
    /// `pos`: offset, key, value range and restart bookkeeping all agree
    /// with the parsed model.
    pub open spec fn aligned(&self) -> bool {
        let es = self.entries();
        &&& self.pos@ < es.len()
        &&& self.current == es[self.pos@ as int].offset
        &&& self.key@ == es[self.pos@ as int].key
        &&& self.value_offset == entry_value_offset(es[self.pos@ as int])
        &&& self.value_len == es[self.pos@ as int].value.len()
        &&& self.restart_index < self.num_restarts
        &&& spec_restart_point(self.data@, self.restarts as nat, self.restart_index as nat)
            <= self.current
    }

    /// What every operation preserves: the offsets stay inside the block,
    /// and on a sound block a positioned cursor is aligned with the model.
    pub open spec fn inv(&self) -> bool {
        &&& (self.num_restarts >= 1 ==> self.restarts + 4 * self.num_restarts + 4
            <= self.data@.len())
        &&& (self.num_restarts == 0 ==> self.restarts == 0 && self.current == 0
            && self.data@.len() == 0)
        &&& self.current <= self.restarts
        &&& self.restarts <= self.data@.len()
        &&& self.restart_index <= self.num_restarts
        &&& self.value_offset + self.value_len <= self.restarts
        &&& (self.wf() && self.valid_spec() ==> self.aligned())
    }

    /// The iterator's geometry: what never changes while it walks.
    pub open spec fn same_block(&self, other: &Self) -> bool {
        &&& self.data@ == other.data@
        &&& self.restarts == other.restarts
        &&& self.num_restarts == other.num_restarts
        &&& self.comparator == other.comparator
    }

    /// A fresh, unpositioned cursor over a block region whose restart
    /// trailer lies at `restarts` and holds `num_restarts` offsets. The
    /// degenerate shape with no restarts and no data stands for a block
    /// that failed its size checks.
    pub fn new(comparator: C, data: &'a [u8], restarts: usize, num_restarts: usize) -> (r: Self)
        requires
            num_restarts == 0 ==> restarts == 0 && data@.len() == 0,
            num_restarts >= 1 ==> restarts + 4 * num_restarts + 4 <= data@.len(),
        ensures
            r.inv(),
            !r.valid_spec(),
            r.status is Okay,
            r.data@ == data@,
            r.restarts == restarts,
            r.num_restarts == num_restarts,
            r.comparator == comparator,
    {
        BlockIterator {
            key: Vec::new(),
            status: Status::Okay,
            value_offset: 0,
            value_len: 0,
            comparator,
            data,
            restarts,
            num_restarts,
            current: restarts,
            restart_index: num_restarts,
            pos: Ghost(0),
        }
    }

    /// The same cursor carrying `status`, for reporting a block that
    /// could not be read at all.
    pub fn with_status(self, status: Status) -> (r: Self)
        requires
            self.inv(),
            !self.valid_spec(),
        ensures
            r.inv(),
            !r.valid_spec(),
            r.status == status,
            r.same_block(&self),
    {
        let mut it = self;
        it.status = status;
        it
    }

    /// True iff the cursor stands on an entry; only then may `key`,
    /// `value`, `step` and `prev` be called.
    pub fn is_valid(&self) -> (r: bool)
        ensures
            r == self.valid_spec(),
    {
        self.current < self.restarts
    }

    /// The status of the walk so far: `Okay`, or the corruption that
    /// ended it.
    pub fn status(&self) -> (r: &Status)
        ensures
            r == &self.status,
    {
        &self.status
    }

    /// The current entry's key, fully reconstructed.
    pub fn key(&self) -> (r: Vec<u8>)
        requires
            self.inv(),
            self.valid_spec(),
        ensures
            r@ == self.key@,
            self.wf() ==> r@ == self.entries()[self.pos@ as int].key,
    {
        vstd::slice::slice_to_vec(self.key.as_slice())
    }

    /// The current entry's value bytes, straight out of the block.
    pub fn value(&self) -> (r: &[u8])
        requires
            self.inv(),
            self.valid_spec(),
        ensures
            r@ == self.data@.subrange(
                self.value_offset as int,
                self.value_offset + self.value_len,
            ),
            self.wf() ==> r@ == self.entries()[self.pos@ as int].value,
    {
        proof {
            if self.wf() {
                lemma_parse_entries_at(
                    self.data@,
                    self.restarts as nat,
                    Seq::empty(),
                    0,
                    self.pos@ as int,
                );
            }
        }
        vstd::slice::slice_subrange(self.data, self.value_offset, self.value_offset + self.value_len)
    }

    /// The restart offset stored at `index` in the trailer.
    fn get_restart_point(&self, index: usize) -> (r: u32)
        requires
            self.inv(),
            index < self.num_restarts,
        ensures
            r as nat == spec_restart_point(self.data@, self.restarts as nat, index as nat),
    {
        proof {
            vstd::slice::axiom_spec_len(self.data);
            assert(self.num_restarts >= 1);
            assert(index * 4 + 4 <= self.num_restarts * 4) by (nonlinear_arith)
                requires
                    index < self.num_restarts,
            ;
            assert(self.restarts + 4 * self.num_restarts + 4 <= self.data@.len());
            assert(self.restarts + index * 4 + 4 <= self.data@.len());
        }
        let offset = self.restarts + index * 4;
        proof {
            assert(self.data@.subrange(offset as int, self.data@.len() as int) =~= self.data@.skip(
                offset as int,
            ));
        }
        decode_fixed32(vstd::slice::slice_subrange(self.data, offset, self.data.len()))
    }

    /// Abandons the walk over a malformed block: the cursor becomes
    /// terminally invalid and remembers the corruption.
    fn corruption_error(&mut self)
        ensures
            final(self).current == final(self).restarts,
            final(self).restart_index == final(self).num_restarts,
            final(self).status is Corruption,
            final(self).key@ == Seq::<u8>::empty(),
            final(self).same_block(old(self)),
            final(self).value_offset == old(self).value_offset,
            final(self).value_len == old(self).value_len,
            !final(self).valid_spec(),
    {
        self.current = self.restarts;
        self.restart_index = self.num_restarts;
        self.status = Status::Corruption(String::from_str("bad entry in block"));
        self.key = Vec::new();
    }

    /// Drops the cursor just before the entry region that starts at
    /// restart point `index`; the next forward parse will land on that
    /// restart's entry. A restart offset pointing outside the entry
    /// region is itself a corruption.
    pub fn seek_to_restart_point(&mut self, index: usize)
        requires
            old(self).inv(),
            index < old(self).num_restarts,
        ensures
            final(self).inv(),
            final(self).same_block(old(self)),
            !final(self).valid_spec(),
            final(self).key@ == Seq::<u8>::empty(),
            final(self).value_len == 0,
            ({
                let rp = spec_restart_point(
                    old(self).data@,
                    old(self).restarts as nat,
                    index as nat,
                );
                if rp <= old(self).restarts {
                    &&& final(self).value_offset == rp
                    &&& final(self).next_off() == rp
                    &&& final(self).status == old(self).status
                    &&& final(self).restart_index == index
                } else {
                    final(self).status is Corruption
                }
            }),
    {
        self.key = Vec::new();
        self.restart_index = index;
        // The cursor is unpositioned until the next forward parse fixes
        // `current`.
        self.current = self.restarts;
        let rp = self.get_restart_point(index);
        if rp as usize <= self.restarts {
            self.value_offset = rp as usize;
            self.value_len = 0;
        } else {
            self.value_offset = self.restarts;
            self.value_len = 0;
            self.corruption_error();
        }
    }

    /// Parses the entry starting right after the current value's bytes.
    /// Returns false at the end of the entry region or on a malformed
    /// entry; the latter sets the corruption status. `new_pos` names the
    /// model index the parse lands on when the block is sound.
    #[verifier::rlimit(100)]
    #[verifier::spinoff_prover]
    fn parse_next_key(&mut self, Ghost(new_pos): Ghost<nat>) -> (r: bool)
        requires
            old(self).inv(),
            old(self).wf() ==> {
                let es = old(self).entries();
                &&& new_pos <= es.len()
                &&& parse_entries(
                    old(self).data@,
                    old(self).restarts as nat,
                    old(self).key@,
                    old(self).next_off(),
                ) == Some(es.skip(new_pos as int))
                &&& old(self).restart_index < old(self).num_restarts
                &&& spec_restart_point(
                    old(self).data@,
                    old(self).restarts as nat,
                    old(self).restart_index as nat,
                ) <= old(self).next_off()
            },
        ensures
            final(self).inv(),
            final(self).same_block(old(self)),
            ({
                let c = old(self).next_off();
                let data = old(self).data@;
                let limit = old(self).restarts as int;
                if c >= old(self).restarts {
                    &&& r == false
                    &&& !final(self).valid_spec()
                    &&& final(self).status == old(self).status
                } else {
                    match spec_decode_entry(data.subrange(c as int, limit)) {
                        Some((sh, nsh, vl, hl)) => if sh <= old(self).key@.len() {
                            &&& r == true
                            &&& final(self).valid_spec()
                            &&& final(self).current == c
                            &&& final(self).key@ == old(self).key@.take(sh as int)
                                + data.subrange((c + hl) as int, (c + hl + nsh) as int)
                            &&& final(self).value_offset == c + hl + nsh
                            &&& final(self).value_len == vl
                            &&& final(self).status == old(self).status
                            &&& final(self).pos@ == new_pos
                        } else {
                            &&& r == false
                            &&& !final(self).valid_spec()
                            &&& final(self).status is Corruption
                        },
                        None => {
                            &&& r == false
                            &&& !final(self).valid_spec()
                            &&& final(self).status is Corruption
                        },
                    }
                }
            }),
            old(self).wf() ==> (r <==> new_pos < old(self).entries().len()),
            old(self).wf() ==> final(self).status == old(self).status,
    {
        let c = self.value_offset + self.value_len;
        proof {
            if self.wf() && c < self.restarts {
                let es = self.entries();
                assert(parse_entries(self.data@, self.restarts as nat, self.key@, c as nat)
                    is Some);
                assert(es.skip(new_pos as int).len() > 0) by {
                    if new_pos == es.len() {
                        assert(es.skip(new_pos as int) =~= Seq::<EntryInfo>::empty());
                    }
                }
                assert(new_pos < es.len());
                lemma_parse_entries_at(self.data@, self.restarts as nat, self.key@, c as nat, 0);
            }
            if self.wf() && c >= self.restarts {
                let es = self.entries();
                if new_pos < es.len() {
                    lemma_parse_entries_at(
                        self.data@,
                        self.restarts as nat,
                        self.key@,
                        c as nat,
                        0,
                    );
                }
            }
        }
        self.current = c;
        if c >= self.restarts {
            // No more entries: mark the cursor unpositioned.
            self.current = self.restarts;
            self.restart_index = self.num_restarts;
            return false;
        }
        let p = vstd::slice::slice_subrange(self.data, c, self.restarts);
        let entry = match decode_entry(p) {
            Ok(entry) => entry,
            Err(_) => {
                self.corruption_error();
                return false;
            },
        };
        if self.key.len() < entry.shared as usize {
            self.corruption_error();
            return false;
        }
        proof {
            lemma_spec_decode_entry_bounds(p@);
        }
        let header_len = (self.restarts - c) - entry.new_slice.len();
        // Reconstruct the key: keep the shared prefix, append the suffix.
        self.key.truncate(entry.shared as usize);
        let suffix = vstd::slice::slice_subrange(entry.new_slice, 0, entry.non_shared as usize);
        self.key.extend_from_slice(suffix);
        self.value_offset = c + header_len + entry.non_shared as usize;
        self.value_len = entry.value_length as usize;
        proof {
            self.pos@ = new_pos;
            let data = self.data@;
            let limit = self.restarts as int;
            let (sh, nsh, vl, hl) = spec_decode_entry(data.subrange(c as int, limit))->0;
            assert(p@.skip(hl as int).subrange(0, nsh as int) =~= data.subrange(
                c + hl,
                c + hl + nsh,
            ));
            assert(self.key@ == old(self).key@.take(sh as int) + data.subrange(
                c + hl,
                c + hl + nsh,
            ));
        }
        proof {
            vstd::slice::axiom_spec_len(self.data);
        }
        let ghost snap = *self;
        // Keep the restart bookkeeping abreast of the new position.
        while self.restart_index + 1 < self.num_restarts && self.get_restart_point(
            self.restart_index + 1,
        ) as usize <= self.current
            invariant
                self.restart_index <= self.num_restarts,
                *self == (BlockIterator { restart_index: self.restart_index, ..snap }),
                snap.inv(),
                snap.valid_spec(),
                self.num_restarts >= 1,
                self.restarts + 4 * self.num_restarts + 4 <= self.data@.len(),
                self.data@.len() <= usize::MAX,
                self.current <= self.restarts,
                self.value_offset + self.value_len <= self.restarts,
                self.wf() ==> self.restart_index < self.num_restarts && spec_restart_point(
                    self.data@,
                    self.restarts as nat,
                    self.restart_index as nat,
                ) <= self.current,
            decreases self.num_restarts - self.restart_index,
        {
            self.restart_index = self.restart_index + 1;
        }
        proof {
            if self.wf() {
                assert(self.aligned());
            }
        }
        true
    }

    /// Advances to the next entry. On a sound block the cursor moves
    /// from entry `pos` to entry `pos + 1`, or becomes unpositioned
    /// after the last entry.
    pub fn step(&mut self)
        requires
            old(self).inv(),
            old(self).valid_spec(),
        ensures
            final(self).inv(),
            final(self).same_block(old(self)),
            old(self).wf() ==> {
                let es = old(self).entries();
                &&& final(self).status == old(self).status
                &&& (old(self).pos@ + 1 < es.len() ==> final(self).valid_spec()
                    && final(self).pos@ == old(self).pos@ + 1)
                &&& (old(self).pos@ + 1 >= es.len() ==> !final(self).valid_spec())
                &&& final(self).valid_spec() <==> old(self).pos@ + 1 < es.len()
            },
    {
        proof {
            if self.wf() {
                let es = self.entries();
                let t = self.pos@ as int;
                lemma_parse_entries_at(self.data@, self.restarts as nat, Seq::empty(), 0, t);
                if t + 1 < es.len() {
                    lemma_parse_entries_at(
                        self.data@,
                        self.restarts as nat,
                        Seq::empty(),
                        0,
                        t + 1,
                    );
                    lemma_spec_decode_entry_bounds(
                        self.data@.subrange(es[t + 1].offset as int, self.restarts as int),
                    );
                }
                lemma_entry_end_position(self.data@, self.restarts as nat, t);
            }
        }
        let ghost next = self.pos@ + 1;
        self.parse_next_key(Ghost(next));
    }

    /// Advances and hands back the entry the cursor lands on, or nothing
    /// once the entries are exhausted.
    pub fn next(&mut self) -> (r: Option<KVEntry>)
        requires
            old(self).inv(),
            old(self).valid_spec(),
        ensures
            final(self).inv(),
            final(self).same_block(old(self)),
            r is Some <==> final(self).valid_spec(),
            r is Some ==> r->0.key@ == final(self).key@ && r->0.value@ == old(self).data@.subrange(
                final(self).value_offset as int,
                final(self).value_offset + final(self).value_len,
            ),
            old(self).wf() ==> {
                let es = old(self).entries();
                &&& final(self).status == old(self).status
                &&& (old(self).pos@ + 1 < es.len() ==> r is Some && r->0.key@ == es[old(
                    self,
                ).pos@ as int + 1].key && r->0.value@ == es[old(self).pos@ as int + 1].value)
                &&& (old(self).pos@ + 1 >= es.len() ==> r is None)
            },
    {
        self.step();
        if self.is_valid() {
            let key = self.key();
            let value = vstd::slice::slice_to_vec(self.value());
            Some(KVEntry { key, value })
        } else {
            None
        }
    }

    /// Positions the cursor on the block's first entry, or leaves it
    /// unpositioned when the block holds no entries.
    pub fn seek_to_first(&mut self)
        requires
            old(self).inv(),
            old(self).num_restarts >= 1,
        ensures
            final(self).inv(),
            final(self).same_block(old(self)),
            old(self).wf() ==> {
                let es = old(self).entries();
                &&& final(self).status == old(self).status
                &&& (es.len() > 0 ==> final(self).valid_spec() && final(self).pos@ == 0)
                &&& (es.len() == 0 ==> !final(self).valid_spec())
            },
    {
        self.seek_to_restart_point(0);
        proof {
            if self.wf() {
                let es = self.entries();
                assert(es.skip(0) =~= es);
                if es.len() > 0 {
                    lemma_parse_entries_at(self.data@, self.restarts as nat, Seq::empty(), 0, 0);
                    lemma_spec_decode_entry_bounds(
                        self.data@.subrange(es[0].offset as int, self.restarts as int),
                    );
                }
            }
        }
        self.parse_next_key(Ghost(0));
    }

    /// Positions the cursor on the first entry whose key is at least
    /// `target`: binary search over the restart points for the last
    /// full-key entry before `target`, then a linear parse forward. On a
    /// sound, sorted block the cursor lands exactly on the first such
    /// entry, or becomes unpositioned when every key is smaller. A
    /// restart entry that shares key bytes, or a restart offset outside
    /// the entry region, is a corruption and aborts the search.
    #[verifier::rlimit(100)]
    #[verifier::spinoff_prover]
    pub fn seek(&mut self, target: &[u8])
        requires
            old(self).inv(),
            old(self).num_restarts >= 1,
        ensures
            final(self).inv(),
            final(self).same_block(old(self)),
            (old(self).wf() && entries_sorted(old(self).comparator, old(self).entries())) ==> {
                let es = old(self).entries();
                let c = old(self).comparator;
                &&& final(self).status == old(self).status
                &&& (final(self).valid_spec() ==> is_first_geq(
                    c,
                    es,
                    target@,
                    final(self).pos@ as int,
                ))
                &&& (!final(self).valid_spec() ==> forall|j: int|
                    0 <= j < es.len() ==> c.cmp_spec((#[trigger] es[j]).key, target@) < 0)
            },
    {
        let ghost es = self.entries();
        let ghost cc = self.comparator;
        let ghost sound = self.wf();
        let ghost good = sound && entries_sorted(cc, es);
        let ghost data = self.data@;
        let ghost limit = self.restarts as nat;
        proof {
            vstd::slice::axiom_spec_len(self.data);
        }
        // Binary search in the restart array for the last restart point
        // with a key before the target.
        let mut left: usize = 0;
        let mut right: usize = self.num_restarts - 1;
        while left < right
            invariant
                *self == *old(self),
                left <= right < self.num_restarts,
                self.inv(),
                self.num_restarts >= 1,
                self.data@.len() <= usize::MAX,
                sound == self.wf(),
                good == (sound && entries_sorted(cc, es)),
                es == self.entries(),
                cc == self.comparator,
                data == self.data@,
                limit == self.restarts as nat,
                sound ==> (left == 0 || exists|t: int|
                    0 <= t < es.len() && (#[trigger] es[t]).offset == spec_restart_point(
                        data,
                        limit,
                        left as nat,
                    ) && es[t].shared == 0 && cc.cmp_spec(es[t].key, target@) < 0),
            decreases right - left,
        {
            let mid = left + (right - left + 1) / 2;
            let region_offset = self.get_restart_point(mid);
            let ghost mut t_mid: int = 0;
            proof {
                if sound {
                    lemma_wf_restart_ok(data, limit, self.num_restarts as nat, mid as nat);
                    assert(restart_ok(data, limit, es, mid as nat));
                    if es.len() == 0 {
                        lemma_wf_restart_ok(data, limit, self.num_restarts as nat, 0);
                        assert(self.entries() == block_entries(data, limit)->0);
                        assert(block_entries(data, limit)->0.len() == 0);
                        assert(spec_restart_point(data, limit, 0nat) == 0);
                        assert(spec_restart_point(data, limit, mid as nat) == 0);
                        let j2: int = mid as int;
                        assert(spec_restart_point(data, limit, j2 as nat) == spec_restart_point(
                            data,
                            limit,
                            mid as nat,
                        ));
                        assert(spec_restart_point(data, limit, (0int) as nat)
                            < spec_restart_point(data, limit, j2 as nat));
                        assert(false);
                    }
                    t_mid = choose|t: int|
                        0 <= t < es.len() && (#[trigger] es[t]).offset == spec_restart_point(
                            data,
                            limit,
                            mid as nat,
                        ) && es[t].shared == 0;
                    lemma_parse_entries_at(data, limit, Seq::empty(), 0, t_mid);
                    lemma_spec_decode_entry_bounds(
                        data.subrange(es[t_mid].offset as int, limit as int),
                    );
                }
            }
            if region_offset as usize >= self.restarts {
                // This restart offset cannot begin an entry.
                self.corruption_error();
                return;
            }
            let p = vstd::slice::slice_subrange(self.data, region_offset as usize, self.restarts);
            let entry = match decode_entry(p) {
                Ok(entry) => entry,
                Err(_) => {
                    self.corruption_error();
                    return;
                },
            };
            if entry.shared != 0 {
                // A restart entry must store its full key.
                self.corruption_error();
                return;
            }
            let mid_key = vstd::slice::slice_subrange(
                entry.new_slice,
                0,
                entry.non_shared as usize,
            );
            proof {
                if sound {
                    let e = es[t_mid];
                    assert(p@ == data.subrange(e.offset as int, limit as int));
                    assert(mid_key@ == p@.skip(e.header_len as int).subrange(
                        0,
                        (e.key.len() - e.shared) as int,
                    ));
                    assert(mid_key@ =~= data.subrange(
                        (e.offset + e.header_len) as int,
                        entry_value_offset(e) as int,
                    ));
                    assert(Seq::<u8>::empty().take(0) + data.subrange(
                        (e.offset + e.header_len) as int,
                        entry_value_offset(e) as int,
                    ) =~= data.subrange(
                        (e.offset + e.header_len) as int,
                        entry_value_offset(e) as int,
                    ));
                    assert(mid_key@ == e.key);
                }
            }
            if self.comparator.compare(mid_key, target) < 0 {
                // The key at `mid` is before the target: everything
                // before `mid` is uninteresting.
                left = mid;
            } else {
                // The key at `mid` is at or past the target: `mid` and
                // everything after it is uninteresting.
                right = mid - 1;
            }
        }
        // Linear search within the chosen restart segment for the first
        // key at or past the target.
        let ghost t_left: int = if sound && es.len() > 0 {
            choose|t: int|
                0 <= t < es.len() && (#[trigger] es[t]).offset == spec_restart_point(
                    data,
                    limit,
                    left as nat,
                ) && es[t].shared == 0
        } else {
            0
        };
        proof {
            if sound && es.len() > 0 {
                lemma_wf_restart_ok(data, limit, self.num_restarts as nat, left as nat);
                assert(restart_ok(data, limit, es, left as nat));
                lemma_parse_entries_at(data, limit, Seq::empty(), 0, t_left);
                lemma_spec_decode_entry_bounds(
                    data.subrange(es[t_left].offset as int, limit as int),
                );
                lemma_parse_from_full_key_entry(data, limit, t_left, Seq::empty());
                if left == 0 {
                    if t_left != 0 {
                        lemma_parse_entries_at(data, limit, Seq::empty(), 0, 0);
                        lemma_entry_offset_unique(data, limit, t_left, 0);
                    }
                } else {
                    let tw = choose|t: int|
                        0 <= t < es.len() && (#[trigger] es[t]).offset == spec_restart_point(
                            data,
                            limit,
                            left as nat,
                        ) && es[t].shared == 0 && cc.cmp_spec(es[t].key, target@) < 0;
                    lemma_entry_offset_unique(data, limit, t_left, tw);
                }
                if good {
                    assert forall|j: int| 0 <= j < t_left implies cc.cmp_spec(
                        (#[trigger] es[j]).key,
                        target@,
                    ) < 0 by {
                        assert(cc.cmp_spec(es[j].key, es[t_left].key) < 0);
                        cc.lemma_total_order(es[j].key, es[t_left].key, target@);
                    }
                }
            }
            if sound && es.len() == 0 {
                lemma_wf_restart_ok(data, limit, self.num_restarts as nat, left as nat);
                assert(restart_ok(data, limit, es, left as nat));
            }
        }
        self.seek_to_restart_point(left);
        let ghost mut np: nat = t_left as nat;
        loop
            invariant
                self.inv(),
                self.num_restarts >= 1,
                self.same_block(old(self)),
                sound == self.wf(),
                good == (sound && entries_sorted(cc, es)),
                es == self.entries(),
                cc == self.comparator,
                data == self.data@,
                limit == self.restarts as nat,
                sound ==> {
                    &&& np <= es.len()
                    &&& parse_entries(data, limit, self.key@, self.next_off()) == Some(
                        es.skip(np as int),
                    )
                    &&& self.restart_index < self.num_restarts
                    &&& spec_restart_point(data, limit, self.restart_index as nat)
                        <= self.next_off()
                    &&& self.status == old(self).status
                },
                good ==> forall|j: int|
                    0 <= j < np ==> cc.cmp_spec((#[trigger] es[j]).key, target@) < 0,
            decreases self.restarts - self.next_off(),
        {
            let ghost pre_off = self.next_off();
            if !self.parse_next_key(Ghost(np)) {
                return;
            }
            proof {
                if sound {
                    lemma_parse_entries_at(data, limit, Seq::empty(), 0, np as int);
                }
            }
            if self.comparator.compare(self.key.as_slice(), target) >= 0 {
                return;
            }
            proof {
                lemma_spec_decode_entry_bounds(data.subrange(pre_off as int, limit as int));
                np = np + 1;
            }
        }
    }

    /// Positions the cursor on the block's last entry: parse forward from
    /// the last restart point until the entry that ends at the region
    /// boundary. Unpositioned when the block holds no entries.
    #[verifier::rlimit(100)]
    #[verifier::spinoff_prover]
    pub fn seek_to_last(&mut self)
        requires
            old(self).inv(),
            old(self).num_restarts >= 1,
        ensures
            final(self).inv(),
            final(self).same_block(old(self)),
            old(self).wf() ==> {
                let es = old(self).entries();
                &&& final(self).status == old(self).status
                &&& (es.len() > 0 ==> final(self).valid_spec() && final(self).pos@ == es.len()
                    - 1)
                &&& (es.len() == 0 ==> !final(self).valid_spec())
            },
    {
        let ghost es = self.entries();
        let ghost sound = self.wf();
        let ghost data = self.data@;
        let ghost limit = self.restarts as nat;
        let n_restarts = self.num_restarts - 1;
        let ghost t0: int = if sound && es.len() > 0 {
            choose|t: int|
                0 <= t < es.len() && (#[trigger] es[t]).offset == spec_restart_point(
                    data,
                    limit,
                    n_restarts as nat,
                ) && es[t].shared == 0
        } else {
            0
        };
        proof {
            if sound {
                lemma_wf_restart_ok(data, limit, self.num_restarts as nat, n_restarts as nat);
                if es.len() > 0 {
                    lemma_parse_entries_at(data, limit, Seq::empty(), 0, t0);
                    lemma_spec_decode_entry_bounds(
                        data.subrange(es[t0].offset as int, limit as int),
                    );
                    lemma_parse_from_full_key_entry(data, limit, t0, Seq::empty());
                }
            }
        }
        self.seek_to_restart_point(n_restarts);
        let ghost mut np: nat = t0 as nat;
        loop
            invariant
                self.inv(),
                self.num_restarts >= 1,
                self.same_block(old(self)),
                sound == self.wf(),
                es == self.entries(),
                data == self.data@,
                limit == self.restarts as nat,
                sound ==> {
                    &&& np < es.len() || (np == 0 && es.len() == 0)
                    &&& parse_entries(data, limit, self.key@, self.next_off()) == Some(
                        es.skip(np as int),
                    )
                    &&& self.restart_index < self.num_restarts
                    &&& spec_restart_point(data, limit, self.restart_index as nat)
                        <= self.next_off()
                    &&& self.status == old(self).status
                },
            decreases self.restarts - self.next_off(),
        {
            let ghost pre_off = self.next_off();
            if !self.parse_next_key(Ghost(np)) {
                return;
            }
            proof {
                if sound {
                    lemma_parse_entries_at(data, limit, Seq::empty(), 0, np as int);
                    lemma_entry_end_position(data, limit, np as int);
                }
            }
            if self.value_offset + self.value_len >= self.restarts {
                // The entry in hand ends at the region boundary: it is
                // the last one.
                return;
            }
            proof {
                lemma_spec_decode_entry_bounds(data.subrange(pre_off as int, limit as int));
                np = np + 1;
            }
        }
    }

    /// Moves to the entry before the current one: scan the restart array
    /// backward to a restart point before this entry, then parse forward
    /// up to, but not past, where this entry began. Unpositioned when the
    /// cursor stood on the first entry.
    #[verifier::rlimit(100)]
    #[verifier::spinoff_prover]
    pub fn prev(&mut self)
        requires
            old(self).inv(),
            old(self).valid_spec(),
        ensures
            final(self).inv(),
            final(self).same_block(old(self)),
            old(self).wf() ==> {
                let es = old(self).entries();
                &&& final(self).status == old(self).status
                &&& (old(self).pos@ > 0 ==> final(self).valid_spec() && final(self).pos@ == old(
                    self,
                ).pos@ - 1)
                &&& (old(self).pos@ == 0 ==> !final(self).valid_spec())
            },
    {
        let ghost es = self.entries();
        let ghost sound = self.wf();
        let ghost data = self.data@;
        let ghost limit = self.restarts as nat;
        let ghost p0 = self.pos@;
        // Scan backwards to a restart point before the current entry.
        let original = self.current;
        proof {
            if sound {
                lemma_parse_entries_at(data, limit, Seq::empty(), 0, p0 as int);
                if p0 > 0 {
                    lemma_parse_entries_at(data, limit, Seq::empty(), 0, p0 as int - 1);
                    lemma_entry_end_position(data, limit, p0 as int - 1);
                    lemma_spec_decode_entry_bounds(
                        data.subrange(es[p0 as int - 1].offset as int, limit as int),
                    );
                }
            }
        }
        if self.restart_index >= self.num_restarts {
            // The restart bookkeeping does not cover this position: the
            // block is malformed.
            self.corruption_error();
            return;
        }
        while self.get_restart_point(self.restart_index) as usize >= original
            invariant
                self.inv(),
                *self == (BlockIterator { restart_index: self.restart_index, ..*old(self) }),
                self.restart_index < self.num_restarts,
                sound == self.wf(),
                es == self.entries(),
                data == self.data@,
                limit == self.restarts as nat,
                original == self.current,
                sound ==> self.pos@ == p0 && p0 < es.len() && original == es[p0 as int].offset,
            decreases self.restart_index,
        {
            if self.restart_index == 0 {
                // No entry lies before this one.
                proof {
                    if sound {
                        lemma_parse_entries_at(data, limit, Seq::empty(), 0, p0 as int);
                        if p0 > 0 {
                            lemma_parse_entries_at(data, limit, Seq::empty(), 0, p0 as int - 1);
                            lemma_spec_decode_entry_bounds(
                                data.subrange(es[p0 as int - 1].offset as int, limit as int),
                            );
                            assert(es[p0 as int].offset >= entry_end(es[p0 as int - 1]));
                            assert(false);
                        }
                    }
                }
                self.current = self.restarts;
                self.restart_index = self.num_restarts;
                return;
            }
            proof {
                if sound {
                    let j1: int = self.restart_index as int - 1;
                    let j2: int = self.restart_index as int;
                    assert(spec_restart_point(data, limit, j1 as nat) < spec_restart_point(
                        data,
                        limit,
                        j2 as nat,
                    ));
                }
            }
            self.restart_index = self.restart_index - 1;
        }
        let ghost ri = self.restart_index as nat;
        proof {
            if sound {
                lemma_wf_restart_ok(data, limit, self.num_restarts as nat, ri);
                assert(es.len() > 0);
            }
        }
        let ghost t0: int = if sound {
            choose|t: int|
                0 <= t < es.len() && (#[trigger] es[t]).offset == spec_restart_point(
                    data,
                    limit,
                    ri,
                ) && es[t].shared == 0
        } else {
            0
        };
        proof {
            if sound {
                lemma_parse_entries_at(data, limit, Seq::empty(), 0, t0);
                lemma_spec_decode_entry_bounds(data.subrange(es[t0].offset as int, limit as int));
                lemma_parse_from_full_key_entry(data, limit, t0, Seq::empty());
                if t0 > p0 {
                    lemma_parse_entries_offsets_increase(data, limit, Seq::empty(), 0, p0 as int, t0);
                }
                if t0 == p0 {
                    assert(es[t0].offset < original);
                    assert(false);
                }
                assert(t0 < p0);
            }
        }
        self.seek_to_restart_point(self.restart_index);
        let ghost mut np: nat = t0 as nat;
        loop
            invariant
                self.inv(),
                self.num_restarts >= 1,
                self.same_block(old(self)),
                sound == self.wf(),
                sound == old(self).wf(),
                es == self.entries(),
                data == self.data@,
                limit == self.restarts as nat,
                p0 == old(self).pos@,
                sound ==> {
                    &&& np < p0
                    &&& p0 < es.len()
                    &&& original == es[p0 as int].offset
                    &&& parse_entries(data, limit, self.key@, self.next_off()) == Some(
                        es.skip(np as int),
                    )
                    &&& self.restart_index < self.num_restarts
                    &&& spec_restart_point(data, limit, self.restart_index as nat)
                        <= self.next_off()
                    &&& self.status == old(self).status
                },
            decreases limit - self.next_off(),
        {
            let ghost pre_off = self.next_off();
            if !self.parse_next_key(Ghost(np)) {
                return;
            }
            proof {
                if sound {
                    lemma_parse_entries_at(data, limit, Seq::empty(), 0, np as int);
                    lemma_entry_end_position(data, limit, np as int);
                    if np + 1 < es.len() && np + 1 < p0 {
                        lemma_parse_entries_offsets_increase(
                            data,
                            limit,
                            Seq::empty(),
                            0,
                            np as int + 1,
                            p0 as int,
                        );
                    }
                }
            }
            if self.value_offset + self.value_len >= original {
                // The next entry would start at or past the original one:
                // the cursor stands on its predecessor.
                proof {
                    if sound {
                        if np + 1 < p0 {
                            assert(entry_end(es[np as int]) == es[np as int + 1].offset);
                            assert(es[np as int + 1].offset < es[p0 as int].offset);
                            assert(false);
                        }
                        assert(np == p0 - 1);
                    }
                }
                return;
            }
            proof {
                lemma_spec_decode_entry_bounds(data.subrange(pre_off as int, limit as int));
                np = np + 1;
            }
        }
    }
}

/// The entry list from any entry's offset onward parses from that
/// entry's predecessor key.
pub proof fn lemma_parse_from_entry(data: Seq<u8>, limit: nat, t: int)
    requires
        block_entries(data, limit) is Some,
        0 <= t < block_entries(data, limit)->0.len(),
    ensures
        ({
            let es = block_entries(data, limit)->0;
            let pk = if t == 0 {
                Seq::<u8>::empty()
            } else {
                es[t - 1].key
            };
            parse_entries(data, limit, pk, es[t].offset) == Some(es.skip(t))
        }),
{
    let es = block_entries(data, limit)->0;
    if t == 0 {
        lemma_parse_entries_at(data, limit, Seq::empty(), 0, 0);
        assert(es.skip(0) =~= es);
    } else {
        lemma_parse_entries_at(data, limit, Seq::empty(), 0, t - 1);
        lemma_parse_entries_at(data, limit, Seq::empty(), 0, t);
    }
}

/// Parsing from an entry that stores its full key does not depend on
/// what came before it.
pub proof fn lemma_parse_from_full_key_entry(data: Seq<u8>, limit: nat, t: int, prev: Seq<u8>)
    requires
        block_entries(data, limit) is Some,
        0 <= t < block_entries(data, limit)->0.len(),
        block_entries(data, limit)->0[t].shared == 0,
    ensures
        ({
            let es = block_entries(data, limit)->0;
            parse_entries(data, limit, prev, es[t].offset) == Some(es.skip(t))
        }),
{
    let es = block_entries(data, limit)->0;
    let pk = if t == 0 {
        Seq::<u8>::empty()
    } else {
        es[t - 1].key
    };
    lemma_parse_from_entry(data, limit, t);
    lemma_parse_entries_at(data, limit, Seq::empty(), 0, t);
    assert(es.skip(t)[0] == es[t]);
    assert(es[t].offset < limit) by {
        lemma_spec_decode_entry_bounds(data.subrange(es[t].offset as int, limit as int));
    }
    lemma_parse_entries_prev_irrelevant(data, limit, pk, prev, es[t].offset);
}

/// The last entry of a block ends exactly at the region boundary, and
/// every earlier entry ends at its successor's offset, strictly before
/// the boundary.
pub proof fn lemma_entry_end_position(data: Seq<u8>, limit: nat, t: int)
    requires
        block_entries(data, limit) is Some,
        0 <= t < block_entries(data, limit)->0.len(),
    ensures
        ({
            let es = block_entries(data, limit)->0;
            &&& (t == es.len() - 1 ==> entry_end(es[t]) == limit)
            &&& (t < es.len() - 1 ==> entry_end(es[t]) == es[t + 1].offset && entry_end(es[t])
                < limit)
        }),
{
    let es = block_entries(data, limit)->0;
    lemma_parse_entries_at(data, limit, Seq::empty(), 0, t);
    if t == es.len() - 1 {
        assert(es.skip(t + 1) =~= Seq::<EntryInfo>::empty());
        if entry_end(es[t]) != limit {
            assert(parse_entries(data, limit, es[t].key, entry_end(es[t])) == Some(
                Seq::<EntryInfo>::empty(),
            ));
            assert(false);
        }
    } else {
        lemma_parse_entries_at(data, limit, Seq::empty(), 0, t + 1);
        lemma_spec_decode_entry_bounds(data.subrange(es[t + 1].offset as int, limit as int));
    }
}

/// Where the `i`-th entry of a built block begins: past the encodings of
/// the entries before it.
pub open spec fn built_offset(entries: Seq<(Seq<u8>, Seq<u8>)>, k: nat, i: int) -> nat {
    block_data_encoding(entries.take(i), k).len()
}

/// The parsed form a built entry must take: its recorded offset, header,
/// shared length, and the original key and value.
pub open spec fn built_entry_info(entries: Seq<(Seq<u8>, Seq<u8>)>, k: nat, i: int) -> EntryInfo {
    let key = entries[i].0;
    let value = entries[i].1;
    let sh: nat = if (i as nat) % k == 0 {
        0
    } else {
        common_prefix_len(prev_key_of(entries, i as nat), key)
    };
    EntryInfo {
        offset: built_offset(entries, k, i),
        header_len: varint_len(sh) + varint_len((key.len() - sh) as nat) + varint_len(value.len()),
        shared: sh,
        key,
        value,
    }
}

/// All keys and values of a pair list fit 32-bit lengths.
pub open spec fn pairs_bounded(entries: Seq<(Seq<u8>, Seq<u8>)>) -> bool {
    forall|j: int|
        0 <= j < entries.len() ==> (#[trigger] entries[j]).0.len() < 0x100000000
            && entries[j].1.len() < 0x100000000
}

/// A shorter prefix of the entry list encodes to a prefix of the data
/// region.
proof fn lemma_block_data_encoding_prefix(entries: Seq<(Seq<u8>, Seq<u8>)>, k: nat, m: int)
    requires
        0 <= m <= entries.len(),
    ensures
        built_offset(entries, k, m) <= block_data_encoding(entries, k).len(),
        block_data_encoding(entries, k).subrange(0, built_offset(entries, k, m) as int)
            == block_data_encoding(entries.take(m), k),
    decreases entries.len(),
{
    let n = entries.len() as int;
    if m == n {
        assert(entries.take(n) =~= entries);
        assert(block_data_encoding(entries, k).subrange(0, built_offset(entries, k, m) as int)
            =~= block_data_encoding(entries, k));
    } else {
        let shorter = entries.take(n - 1);
        assert(shorter.take(m) =~= entries.take(m));
        lemma_block_data_encoding_prefix(shorter, k, m);
        assert(entries.take(n) =~= entries);
        assert(block_data_encoding(entries, k) == block_data_encoding(shorter, k)
            + entry_encoding(
            prev_key_of(entries, (n - 1) as nat),
            entries[n - 1].0,
            entries[n - 1].1,
            (n - 1) as nat % k == 0,
        )) by {
            assert(entries.take(n - 1) == shorter);
        }
        assert(block_data_encoding(entries, k).subrange(0, built_offset(entries, k, m) as int)
            =~= block_data_encoding(shorter, k).subrange(0, built_offset(shorter, k, m) as int));
    }
}

/// Each built entry takes at least three bytes, so offsets strictly
/// increase along the list.
proof fn lemma_built_offset_step(entries: Seq<(Seq<u8>, Seq<u8>)>, k: nat, i: int)
    requires
        0 <= i < entries.len(),
    ensures
        built_offset(entries, k, i + 1) == built_offset(entries, k, i) + entry_encoding(
            prev_key_of(entries, i as nat),
            entries[i].0,
            entries[i].1,
            (i as nat) % k == 0,
        ).len(),
        built_offset(entries, k, i) + 3 <= built_offset(entries, k, i + 1),
{
    let pre = entries.take(i);
    assert(entries.take(i + 1) =~= pre.push(entries[i]));
    lemma_block_data_encoding_push(pre, entries[i], k);
    assert(pre.len() == i);
    assert(prev_key_of(pre, i as nat) == prev_key_of(entries, i as nat)) by {
        if i > 0 {
            assert(pre[i - 1] == entries[i - 1]);
        }
    }
    let sh: nat = if (i as nat) % k == 0 {
        0
    } else {
        common_prefix_len(prev_key_of(entries, i as nat), entries[i].0)
    };
    lemma_varint_encoding_len(sh);
    lemma_varint_encoding_len((entries[i].0.len() - sh) as nat);
    lemma_varint_encoding_len(entries[i].1.len());
}

/// Offsets of a built block grow with the entry index.
proof fn lemma_built_offset_monotone(entries: Seq<(Seq<u8>, Seq<u8>)>, k: nat, a: int, b: int)
    requires
        0 <= a <= b <= entries.len(),
    ensures
        built_offset(entries, k, a) <= built_offset(entries, k, b),
        a < b ==> built_offset(entries, k, a) + 3 <= built_offset(entries, k, b),
    decreases b - a,
{
    if a < b {
        lemma_built_offset_step(entries, k, a);
        lemma_built_offset_monotone(entries, k, a + 1, b);
    }
}

/// Decoding one built entry at its offset: the header fields read back
/// and the suffix and value bytes are in place.
#[verifier::rlimit(100)]
#[verifier::spinoff_prover]
proof fn lemma_decode_built_entry(entries: Seq<(Seq<u8>, Seq<u8>)>, k: nat, i: int)
    requires
        k >= 1,
        pairs_bounded(entries),
        0 <= i < entries.len(),
    ensures
        ({
            let data = block_encoding(entries, k);
            let limit = block_data_encoding(entries, k).len();
            let e = built_entry_info(entries, k, i);
            let prev = prev_key_of(entries, i as nat);
            &&& e.shared <= prev.len()
            &&& e.shared <= e.key.len()
            &&& spec_decode_entry(data.subrange(e.offset as int, limit as int)) == Some(
                (e.shared, (e.key.len() - e.shared) as nat, e.value.len(), e.header_len),
            )
            &&& prev.take(e.shared as int) + data.subrange(
                (e.offset + e.header_len) as int,
                entry_value_offset(e) as int,
            ) == e.key
            &&& data.subrange(entry_value_offset(e) as int, entry_end(e) as int) == e.value
            &&& entry_end(e) == built_offset(entries, k, i + 1)
            &&& built_offset(entries, k, i + 1) <= limit
        }),
{
    let data = block_encoding(entries, k);
    let limit = block_data_encoding(entries, k).len();
    let key = entries[i].0;
    let value = entries[i].1;
    let prev = prev_key_of(entries, i as nat);
    let restart = (i as nat) % k == 0;
    let sh: nat = if restart {
        0
    } else {
        common_prefix_len(prev, key)
    };
    lemma_common_prefix_len_props(prev, key);
    let nsh: nat = (key.len() - sh) as nat;
    let vl: nat = value.len();
    let enc = entry_encoding(prev, key, value, restart);
    let off_i = built_offset(entries, k, i);
    let off_n = built_offset(entries, k, i + 1);
    let rest = data.subrange(off_n as int, limit as int);
    lemma_built_entry_bytes(entries, k, i);
    let sub = data.subrange(off_i as int, limit as int);
    lemma_entry_encoding_decodes(prev, key, value, restart, rest);
    let hl = varint_len(sh) + varint_len(nsh) + varint_len(vl);
    let e = built_entry_info(entries, k, i);
    assert(e.offset == off_i && e.header_len == hl && e.shared == sh && e.key == key
        && e.value == value);
    lemma_built_offset_step(entries, k, i);
    assert(enc.len() == hl + nsh + vl);
    assert(entry_value_offset(e) == off_i + hl + nsh);
    assert(entry_end(e) == off_i + hl + nsh + vl);
    assert(entry_end(e) == off_n);
    assert(data.subrange((off_i + hl) as int, (off_i + hl + nsh) as int) =~= sub.subrange(
        hl as int,
        (hl + nsh) as int,
    ));
    assert(data.subrange((off_i + hl + nsh) as int, (off_i + hl + nsh + vl) as int)
        =~= sub.subrange((hl + nsh) as int, (hl + nsh + vl) as int));
    assert(prev.take(sh as int) =~= key.take(sh as int));
    assert(prev.take(sh as int) + key.skip(sh as int) =~= key);
}

/// The bytes of a built block from one entry's offset are that entry's
/// encoding followed by the rest of the data region.
#[verifier::rlimit(100)]
#[verifier::spinoff_prover]
proof fn lemma_built_entry_bytes(entries: Seq<(Seq<u8>, Seq<u8>)>, k: nat, i: int)
    requires
        k >= 1,
        0 <= i < entries.len(),
    ensures
        ({
            let data = block_encoding(entries, k);
            let limit = block_data_encoding(entries, k).len();
            let enc = entry_encoding(
                prev_key_of(entries, i as nat),
                entries[i].0,
                entries[i].1,
                (i as nat) % k == 0,
            );
            &&& built_offset(entries, k, i) + enc.len() == built_offset(entries, k, i + 1)
            &&& built_offset(entries, k, i + 1) <= limit
            &&& data.subrange(built_offset(entries, k, i) as int, limit as int) == enc
                + data.subrange(built_offset(entries, k, i + 1) as int, limit as int)
        }),
{
    let data = block_encoding(entries, k);
    let dp = block_data_encoding(entries, k);
    let limit = dp.len();
    let n = entries.len() as int;
    assert(dp =~= data.subrange(0, limit as int));
    let prev = prev_key_of(entries, i as nat);
    let enc = entry_encoding(prev, entries[i].0, entries[i].1, (i as nat) % k == 0);
    let off_i = built_offset(entries, k, i);
    let off_n = built_offset(entries, k, i + 1);
    lemma_built_offset_step(entries, k, i);
    lemma_built_offset_monotone(entries, k, i + 1, n);
    assert(entries.take(n) =~= entries);
    assert(built_offset(entries, k, n) == limit);
    lemma_block_data_encoding_prefix(entries, k, i);
    lemma_block_data_encoding_prefix(entries, k, i + 1);
    assert(entries.take(i + 1) =~= entries.take(i).push(entries[i]));
    lemma_block_data_encoding_push(entries.take(i), entries[i], k);
    assert(prev_key_of(entries.take(i), i as nat) == prev) by {
        if i > 0 {
            assert(entries.take(i)[i - 1] == entries[i - 1]);
        }
    }
    let sub = data.subrange(off_i as int, limit as int);
    let next_part = block_data_encoding(entries.take(i + 1), k);
    assert(next_part == block_data_encoding(entries.take(i), k) + enc);
    assert(enc.len() == next_part.len() - off_i);
    assert(forall|t: int| 0 <= t < limit ==> data[t] == dp[t]) by {
        assert(forall|t: int| 0 <= t < limit ==> dp[t] == data.subrange(0, limit as int)[t]);
    }
    assert(dp.subrange(0, off_n as int) == next_part);
    assert forall|t: int| 0 <= t < sub.len() implies sub[t] == (enc + data.subrange(
        off_n as int,
        limit as int,
    ))[t] by {
        assert(sub[t] == data[off_i + t]);
        assert(data[off_i + t] == dp[off_i + t]);
        if t < enc.len() {
            assert(dp[off_i + t] == dp.subrange(0, off_n as int)[off_i + t]);
            assert(next_part[off_i + t] == enc[t]);
        } else {
            assert((enc + data.subrange(off_n as int, limit as int))[t] == data.subrange(
                off_n as int,
                limit as int,
            )[t - enc.len()]);
            assert(data.subrange(off_n as int, limit as int)[t - enc.len()] == data[off_n + t
                - enc.len()]);
        }
    }
    assert(sub =~= enc + data.subrange(off_n as int, limit as int));
}

/// An entry encoding at the front of any byte sequence decodes to its
/// own header fields, key suffix and value.
#[verifier::rlimit(100)]
#[verifier::spinoff_prover]
proof fn lemma_entry_encoding_decodes(
    prev: Seq<u8>,
    key: Seq<u8>,
    value: Seq<u8>,
    restart: bool,
    rest: Seq<u8>,
)
    requires
        key.len() < 0x100000000,
        value.len() < 0x100000000,
    ensures
        ({
            let sh: nat = if restart {
                0
            } else {
                common_prefix_len(prev, key)
            };
            let nsh = (key.len() - sh) as nat;
            let vl = value.len();
            let hl = varint_len(sh) + varint_len(nsh) + varint_len(vl);
            let p = entry_encoding(prev, key, value, restart) + rest;
            &&& entry_encoding(prev, key, value, restart).len() == hl + nsh + vl
            &&& spec_decode_entry(p) == Some((sh, nsh, vl, hl))
            &&& p.subrange(hl as int, (hl + nsh) as int) == key.skip(sh as int)
            &&& p.subrange((hl + nsh) as int, (hl + nsh + vl) as int) == value
        }),
{
    let sh: nat = if restart {
        0
    } else {
        common_prefix_len(prev, key)
    };
    lemma_common_prefix_len_props(prev, key);
    let nsh = (key.len() - sh) as nat;
    let vl = value.len();
    let enc = entry_encoding(prev, key, value, restart);
    let p = enc + rest;
    lemma_varint_len_bounds(sh);
    lemma_varint_len_bounds(nsh);
    lemma_varint_len_bounds(vl);
    lemma_varint_encoding_len(sh);
    lemma_varint_encoding_len(nsh);
    lemma_varint_encoding_len(vl);
    let r1 = varint_encoding(nsh) + varint_encoding(vl) + key.skip(sh as int) + value + rest;
    assert(p =~= varint_encoding(sh) + r1);
    lemma_varint_round_trip(sh, r1, 5);
    let n1 = varint_len(sh);
    let r2 = varint_encoding(vl) + key.skip(sh as int) + value + rest;
    assert(p.skip(n1 as int) =~= varint_encoding(nsh) + r2);
    lemma_varint_round_trip(nsh, r2, 5);
    let n2 = varint_len(nsh);
    let r3 = key.skip(sh as int) + value + rest;
    assert(p.skip((n1 + n2) as int) =~= varint_encoding(vl) + r3);
    lemma_varint_round_trip(vl, r3, 5);
    let n3 = varint_len(vl);
    let hl = (n1 + n2 + n3) as nat;
    assert(p.len() - hl >= nsh + vl);
    assert(spec_decode_entry(p) == Some((sh, nsh, vl, hl)));
    assert(p.subrange(hl as int, (hl + nsh) as int) =~= key.skip(sh as int));
    assert(p.subrange((hl + nsh) as int, (hl + nsh + vl) as int) =~= value);
}

/// Parsing a built block from the `i`-th entry's offset, against the
/// key before it, recovers exactly the built entries from `i` on.
#[verifier::rlimit(100)]
#[verifier::spinoff_prover]
proof fn lemma_parse_built_suffix(entries: Seq<(Seq<u8>, Seq<u8>)>, k: nat, i: int)
    requires
        k >= 1,
        pairs_bounded(entries),
        0 <= i <= entries.len(),
    ensures
        parse_entries(
            block_encoding(entries, k),
            block_data_encoding(entries, k).len(),
            prev_key_of(entries, i as nat),
            built_offset(entries, k, i),
        ) == Some(
            Seq::new((entries.len() - i) as nat, |j: int| built_entry_info(entries, k, i + j)),
        ),
    decreases entries.len() - i,
{
    let data = block_encoding(entries, k);
    let dp = block_data_encoding(entries, k);
    let limit = dp.len();
    let n = entries.len() as int;
    assert(dp =~= data.subrange(0, limit as int));
    if i == n {
        assert(entries.take(n) =~= entries);
        assert(built_offset(entries, k, n) == limit);
        assert(Seq::new(0, |j: int| built_entry_info(entries, k, n + j))
            =~= Seq::<EntryInfo>::empty());
    } else {
        lemma_decode_built_entry(entries, k, i);
        let e = built_entry_info(entries, k, i);
        let prev = prev_key_of(entries, i as nat);
        let off_i = built_offset(entries, k, i);
        let off_n = built_offset(entries, k, i + 1);
        lemma_built_offset_step(entries, k, i);
        assert(entries.take(n) =~= entries);
        assert(built_offset(entries, k, n) == limit);
        lemma_built_offset_monotone(entries, k, i + 1, n);
        lemma_parse_built_suffix(entries, k, i + 1);
        assert(prev_key_of(entries, (i + 1) as nat) == e.key);
        let rest = Seq::new((n - i - 1) as nat, |j: int| built_entry_info(entries, k, i + 1 + j));
        assert(off_i < limit) by {
            lemma_spec_decode_entry_bounds(data.subrange(off_i as int, limit as int));
        }
        assert(parse_entries(data, limit, prev, off_i) == Some(seq![e] + rest));
        assert(seq![e] + rest =~= Seq::new(
            (n - i) as nat,
            |j: int| built_entry_info(entries, k, i + j),
        ));
    }
}

/// Round trip of a block's entry region: building a block from a list of
/// pairs and parsing the result gives the same keys and values back, in
/// order.
pub proof fn lemma_block_round_trip(entries: Seq<(Seq<u8>, Seq<u8>)>, k: nat)
    requires
        k >= 1,
        pairs_bounded(entries),
    ensures
        block_entries(block_encoding(entries, k), block_data_encoding(entries, k).len()) == Some(
            Seq::new(entries.len(), |i: int| built_entry_info(entries, k, i)),
        ),
        forall|i: int|
            0 <= i < entries.len() ==> (#[trigger] built_entry_info(entries, k, i)).key
                == entries[i].0 && built_entry_info(entries, k, i).value == entries[i].1,
{
    lemma_parse_built_suffix(entries, k, 0);
    assert(entries.take(0) =~= Seq::<(Seq<u8>, Seq<u8>)>::empty());
    assert(built_offset(entries, k, 0) == 0);
    assert(Seq::new(entries.len(), |i: int| built_entry_info(entries, k, i)) =~= Seq::new(
        (entries.len() - 0) as nat,
        |j: int| built_entry_info(entries, k, 0 + j),
    ));
}

/// The data region grows by at least three bytes per entry.
proof fn lemma_block_data_min_len(entries: Seq<(Seq<u8>, Seq<u8>)>, k: nat)
    ensures
        block_data_encoding(entries, k).len() >= 3 * entries.len(),
    decreases entries.len(),
{
    let n = entries.len() as int;
    if n > 0 {
        lemma_block_data_min_len(entries.take(n - 1), k);
        lemma_built_offset_step(entries, k, n - 1);
        assert(entries.take(n) =~= entries);
    }
}

/// True iff `off` is where some restart entry of the built block
/// begins: a nonzero entry index that is a multiple of the interval.
pub open spec fn offset_is_restart(entries: Seq<(Seq<u8>, Seq<u8>)>, k: nat, off: nat) -> bool {
    exists|i: int|
        1 <= i < entries.len() && (i as nat) % k == 0 && off == #[trigger] built_offset(
            entries,
            k,
            i,
        )
}

/// The restart offsets of a built block: never empty, starting at zero,
/// strictly increasing, each a restart entry's offset, and at most one
/// per entry.
proof fn lemma_restart_offsets_props(entries: Seq<(Seq<u8>, Seq<u8>)>, k: nat)
    requires
        k >= 1,
    ensures
        ({
            let offsets = restart_offsets(entries, k);
            &&& offsets.len() >= 1
            &&& offsets.len() <= entries.len() + 1
            &&& offsets[0] == 0
            &&& (forall|j: int|
                1 <= j < offsets.len() ==> offset_is_restart(entries, k, #[trigger] offsets[j]))
            &&& (forall|j1: int, j2: int|
                0 <= j1 < j2 < offsets.len() ==> offsets[j1] < offsets[j2])
            &&& (forall|j: int|
                0 <= j < offsets.len() ==> #[trigger] offsets[j] <= block_data_encoding(
                    entries,
                    k,
                ).len())
        }),
    decreases entries.len(),
{
    let offsets = restart_offsets(entries, k);
    let n = entries.len() as int;
    if n == 0 {
    } else {
        let shorter = entries.take(n - 1);
        lemma_restart_offsets_props(shorter, k);
        let prev = restart_offsets(shorter, k);
        assert(forall|m: int| 0 <= m <= n - 1 ==> #[trigger] shorter.take(m) =~= entries.take(m));
        assert(forall|m: int|
            0 <= m <= n - 1 ==> #[trigger] built_offset(shorter, k, m) == built_offset(
                entries,
                k,
                m,
            ));
        lemma_built_offset_monotone(entries, k, 0, n);
        assert(built_offset(entries, k, 0) == 0) by {
            assert(entries.take(0) =~= Seq::<(Seq<u8>, Seq<u8>)>::empty());
        }
        assert(built_offset(entries, k, n) == block_data_encoding(entries, k).len()) by {
            assert(entries.take(n) =~= entries);
        }
        assert forall|m1: int, m2: int| 0 <= m1 < m2 <= n implies built_offset(entries, k, m1)
            < built_offset(entries, k, m2) by {
            lemma_built_offset_monotone(entries, k, m1, m2);
        }
        assert forall|m: int| 0 <= m <= n implies built_offset(entries, k, m)
            <= block_data_encoding(entries, k).len() by {
            lemma_built_offset_monotone(entries, k, m, n);
        }
        if n - 1 != 0 && ((n - 1) as nat) % k == 0 {
            assert(offsets == prev.push(block_data_encoding(shorter, k).len()));
            assert(block_data_encoding(shorter, k).len() == built_offset(entries, k, n - 1));
            assert forall|j: int| 1 <= j < offsets.len() implies offset_is_restart(
                entries,
                k,
                offsets[j],
            ) by {
                if j < prev.len() {
                    assert(offsets[j] == prev[j]);
                    assert(offset_is_restart(shorter, k, prev[j]));
                    let i0 = choose|i: int|
                        1 <= i < shorter.len() && (i as nat) % k == 0 && prev[j]
                            == #[trigger] built_offset(shorter, k, i);
                    assert(1 <= i0 < entries.len() && (i0 as nat) % k == 0 && offsets[j]
                        == built_offset(entries, k, i0));
                } else {
                    assert(offsets[j] == built_offset(entries, k, n - 1));
                    assert(1 <= n - 1 < entries.len() && ((n - 1) as nat) % k == 0);
                }
            }
            assert forall|j1: int, j2: int| 0 <= j1 < j2 < offsets.len() implies offsets[j1]
                < offsets[j2] by {
                if j2 < prev.len() {
                } else {
                    if j1 == 0 {
                        lemma_built_offset_monotone(entries, k, 0, n - 1);
                    } else {
                        assert(offset_is_restart(shorter, k, prev[j1]));
                        let i0 = choose|i: int|
                            1 <= i < shorter.len() && (i as nat) % k == 0 && prev[j1]
                                == #[trigger] built_offset(shorter, k, i);
                        lemma_built_offset_monotone(entries, k, i0, n - 1);
                    }
                }
            }
        } else {
            assert(offsets == prev);
            assert forall|j: int| 1 <= j < offsets.len() implies offset_is_restart(
                entries,
                k,
                offsets[j],
            ) by {
                assert(offset_is_restart(shorter, k, prev[j]));
                let i0 = choose|i: int|
                    1 <= i < shorter.len() && (i as nat) % k == 0 && prev[j]
                        == #[trigger] built_offset(shorter, k, i);
                assert(1 <= i0 < entries.len() && (i0 as nat) % k == 0 && offsets[j]
                    == built_offset(entries, k, i0));
            }
        }
    }
}

/// The trailer stores each restart offset as four little bytes at index
/// `4 * j`.
proof fn lemma_trailer_bytes(offsets: Seq<nat>, j: int)
    requires
        0 <= j < offsets.len(),
        forall|t: int| 0 <= t < offsets.len() ==> #[trigger] offsets[t] < 0x100000000,
    ensures
        block_trailer_encoding(offsets).subrange(4 * j, 4 * j + 4) == fixed32_bytes(
            ENDIANNESS,
            offsets[j] as u32,
        ),
    decreases offsets.len(),
{
    lemma_block_trailer_encoding_len(offsets);
    let enc = block_trailer_encoding(offsets);
    let n = offsets.len() as int;
    if j == n - 1 {
        lemma_block_trailer_encoding_len(offsets.drop_last());
        assert(enc.subrange(4 * j, 4 * j + 4) =~= fixed32_bytes(
            ENDIANNESS,
            offsets.last() as u32,
        ));
    } else {
        assert(forall|t: int|
            0 <= t < offsets.drop_last().len() ==> #[trigger] offsets.drop_last()[t]
                == offsets[t]);
        lemma_trailer_bytes(offsets.drop_last(), j);
        lemma_block_trailer_encoding_len(offsets.drop_last());
        assert(enc.subrange(4 * j, 4 * j + 4) =~= block_trailer_encoding(
            offsets.drop_last(),
        ).subrange(4 * j, 4 * j + 4));
    }
}

/// A block built from bounded pairs is well formed: it parses, its
/// trailer is consistent, and its restart offsets land on full-key
/// entries in strictly increasing order.
#[verifier::rlimit(100)]
#[verifier::spinoff_prover]
pub proof fn lemma_built_block_wf(entries: Seq<(Seq<u8>, Seq<u8>)>, k: nat)
    requires
        k >= 1,
        pairs_bounded(entries),
        block_data_encoding(entries, k).len() + 4 * (entries.len() + 1) + 4 < 0x100000000,
    ensures
        wf_block(
            block_encoding(entries, k),
            block_data_encoding(entries, k).len(),
            restart_offsets(entries, k).len(),
        ),
        block_encoding(entries, k).len() == block_data_encoding(entries, k).len() + 4
            * restart_offsets(entries, k).len() + 4,
{
    let data = block_encoding(entries, k);
    let dp = block_data_encoding(entries, k);
    let limit = dp.len();
    let offsets = restart_offsets(entries, k);
    let nr = offsets.len();
    let trailer = block_trailer_encoding(offsets);
    lemma_restart_offsets_props(entries, k);
    lemma_block_trailer_encoding_len(offsets);
    lemma_block_round_trip(entries, k);
    let es = block_entries(data, limit)->0;
    assert(data.len() == limit + 4 * nr + 4);
    assert(forall|t: int| 0 <= t < offsets.len() ==> #[trigger] offsets[t] < 0x100000000);
    // Every restart offset reads back from the trailer bytes.
    assert forall|j: int| 0 <= j < nr implies spec_restart_point(data, limit, j as nat)
        == offsets[j] by {
        lemma_trailer_bytes(offsets, j);
        let word = fixed32_bytes(ENDIANNESS, offsets[j] as u32);
        let start = limit + 4 * j;
        assert forall|t: int| 0 <= t < 4 implies data.skip(start as int)[t] == word[t] by {
            assert(data[start + t] == trailer.subrange(4 * j, 4 * j + 4)[t]);
        }
        assert(data.skip(start as int).take(4) =~= word);
        assert(fixed32_value(ENDIANNESS, data.skip(start as int)) == fixed32_value(
            ENDIANNESS,
            data.skip(start as int).take(4),
        ));
        lemma_fixed32_round_trip(ENDIANNESS, offsets[j] as u32);
    }
    // The stored restart count reads back.
    assert(spec_num_restarts(data) == nr) by {
        let word = fixed32_bytes(ENDIANNESS, nr as u32);
        assert forall|t: int| 0 <= t < 4 implies data.skip(data.len() - 4)[t] == word[t] by {
            assert(data[limit + 4 * nr + t] == word[t]);
        }
        assert(data.skip(data.len() - 4).take(4) =~= word);
        assert(fixed32_value(ENDIANNESS, data.skip(data.len() - 4)) == fixed32_value(
            ENDIANNESS,
            data.skip(data.len() - 4).take(4),
        ));
        lemma_fixed32_round_trip(ENDIANNESS, nr as u32);
    }
    // Every restart offset names a full-key entry.
    assert forall|j: int| 0 <= j < nr implies #[trigger] restart_ok(
        data,
        limit,
        es,
        j as nat,
    ) by {
        if entries.len() == 0 {
            assert(es =~= Seq::<EntryInfo>::empty());
            assert(offsets[j] == 0);
        } else {
            if j == 0 {
                assert(es[0].offset == 0 && es[0].shared == 0) by {
                    assert(es[0] == built_entry_info(entries, k, 0));
                    assert(entries.take(0) =~= Seq::<(Seq<u8>, Seq<u8>)>::empty());
                }
                assert(0 <= 0 < es.len() && es[0].offset == spec_restart_point(
                    data,
                    limit,
                    j as nat,
                ) && es[0].shared == 0);
            } else {
                assert(offset_is_restart(entries, k, offsets[j]));
                let i0 = choose|i: int|
                    1 <= i < entries.len() && (i as nat) % k == 0 && offsets[j]
                        == #[trigger] built_offset(entries, k, i);
                assert(es[i0] == built_entry_info(entries, k, i0));
                assert(es[i0].offset == offsets[j] && es[i0].shared == 0);
                assert(0 <= i0 < es.len() && es[i0].offset == spec_restart_point(
                    data,
                    limit,
                    j as nat,
                ) && es[i0].shared == 0);
            }
        }
    }
    assert(spec_restart_point(data, limit, 0) == 0);
    assert forall|j1: int, j2: int| 0 <= j1 < j2 < nr implies #[trigger] spec_restart_point(
        data,
        limit,
        j1 as nat,
    ) < #[trigger] spec_restart_point(data, limit, j2 as nat) by {
        assert(spec_restart_point(data, limit, j1 as nat) == offsets[j1]);
        assert(spec_restart_point(data, limit, j2 as nat) == offsets[j2]);
    }
}

/// Consecutively increasing keys are pairwise increasing.
pub proof fn lemma_consecutive_sorted<C: SliceComparator>(c: C, es: Seq<EntryInfo>, a: int, b: int)
    requires
        forall|j: int|
            1 <= j < es.len() ==> c.cmp_spec((#[trigger] es[j]).key, es[j - 1].key) > 0,
        0 <= a < b < es.len(),
    ensures
        c.cmp_spec(es[a].key, es[b].key) < 0,
    decreases b - a,
{
    c.lemma_total_order(es[b].key, es[b - 1].key, es[b].key);
    c.lemma_total_order(es[b - 1].key, es[b].key, es[b].key);
    if a == b - 1 {
    } else {
        lemma_consecutive_sorted(c, es, a, b - 1);
        c.lemma_total_order(es[a].key, es[b - 1].key, es[b].key);
    }
}

/// A parsed block has at most one entry at any offset.
pub proof fn lemma_entry_offset_unique(data: Seq<u8>, limit: nat, t1: int, t2: int)
    requires
        block_entries(data, limit) is Some,
        0 <= t1 < block_entries(data, limit)->0.len(),
        0 <= t2 < block_entries(data, limit)->0.len(),
        block_entries(data, limit)->0[t1].offset == block_entries(data, limit)->0[t2].offset,
    ensures
        t1 == t2,
{
    if t1 < t2 {
        lemma_parse_entries_offsets_increase(data, limit, Seq::empty(), 0, t1, t2);
    }
    if t2 < t1 {
        lemma_parse_entries_offsets_increase(data, limit, Seq::empty(), 0, t2, t1);
    }
}

/// The entry `f` is the first whose key reaches `target` under `c`.
pub open spec fn is_first_geq<C: SliceComparator>(
    c: C,
    es: Seq<EntryInfo>,
    target: Seq<u8>,
    f: int,
) -> bool {
    &&& 0 <= f < es.len()
    &&& c.cmp_spec(es[f].key, target) >= 0
    &&& forall|j: int| 0 <= j < f ==> c.cmp_spec((#[trigger] es[j]).key, target) < 0
}

/// Instantiates the restart-point soundness of a well-formed block: on
/// a block with entries, every restart offset names a full-key entry;
/// on an empty block every restart offset is zero.
proof fn lemma_wf_restart_ok(data: Seq<u8>, restarts: nat, num_restarts: nat, j: nat)
    requires
        wf_block(data, restarts, num_restarts),
        j < num_restarts,
    ensures
        restart_ok(data, restarts, block_entries(data, restarts)->0, j),
        block_entries(data, restarts)->0.len() > 0 ==> exists|t: int|
            0 <= t < block_entries(data, restarts)->0.len() && (#[trigger] block_entries(
                data,
                restarts,
            )->0[t]).offset == spec_restart_point(data, restarts, j) && block_entries(
                data,
                restarts,
            )->0[t].shared == 0,
        block_entries(data, restarts)->0.len() == 0 ==> spec_restart_point(data, restarts, j)
            == 0,
{
    let jj = j as int;
    let es = block_entries(data, restarts)->0;
    assert(0 <= jj < num_restarts);
    assert(restart_ok(data, restarts, es, jj as nat));
    if es.len() == 0 {
        assert(spec_restart_point(data, restarts, j) == 0);
    } else {
        assert(exists|t: int|
            0 <= t < es.len() && (#[trigger] es[t]).offset == spec_restart_point(
                data,
                restarts,
                j,
            ) && es[t].shared == 0);
    }
}

/// A decoded key/value pair handed out by a cursor.
pub struct KVEntry {
    pub key: Vec<u8>,
    pub value: Vec<u8>,
}

/// Sound geometry of a block object: the trailer count fits the data and
/// the restart offset points at the trailer.
pub open spec fn block_geometry_ok(data: Seq<u8>, restart_offset: int) -> bool {
    &&& data.len() >= 4
    &&& spec_num_restarts(data) <= (data.len() - 4) / 4
    &&& restart_offset == data.len() - (1 + spec_num_restarts(data)) * 4
}

/// Reads the restart count from the last four bytes of a finished block.
pub fn num_restarts(data: &[u8]) -> (r: usize)
    requires
        data@.len() >= 4,
    ensures
        r == spec_num_restarts(data@),
{
    proof {
        vstd::slice::axiom_spec_len(data);
    }
    let offset = data.len() - 4;
    proof {
        assert(data@.subrange(offset as int, data@.len() as int) =~= data@.skip(offset as int));
    }
    decode_fixed32(vstd::slice::slice_subrange(data, offset, data.len())) as usize
}

/// A cursor over the block bytes held in `slice`, whose restart trailer
/// lies at `restart_offset`. A region too short for a trailer gives a
/// corrupt cursor; a region with no restart points gives an empty one;
/// inconsistent geometry is a corruption as well.
pub fn iter_slice<'a, C: SliceComparator>(
    comparator: C,
    slice: &'a [u8],
    restart_offset: usize,
) -> (r: BlockIterator<'a, C>)
    ensures
        r.inv(),
        !r.valid_spec(),
        ({
            if slice@.len() < 4 {
                r.status is Corruption
            } else if spec_num_restarts(slice@) == 0 {
                r.num_restarts == 0 && r.status is Okay
            } else if block_geometry_ok(slice@, restart_offset as int) {
                &&& r.data@ == slice@
                &&& r.restarts == restart_offset
                &&& r.num_restarts == spec_num_restarts(slice@)
                &&& r.status is Okay
                &&& r.comparator == comparator
            } else {
                r.status is Corruption
            }
        }),
{
    proof {
        vstd::slice::axiom_spec_len(slice);
    }
    if slice.len() < 4 {
        let empty = vstd::slice::slice_subrange(slice, 0, 0);
        return BlockIterator::new(comparator, empty, 0, 0).with_status(
            Status::Corruption(String::from_str("bad block contents")),
        );
    }
    let nr = num_restarts(slice);
    if nr == 0 {
        let empty = vstd::slice::slice_subrange(slice, 0, 0);
        return BlockIterator::new(comparator, empty, 0, 0);
    }
    // The trailer must fit inside the data and lie exactly at the given
    // restart offset.
    if nr <= (slice.len() - 4) / 4 && restart_offset == slice.len() - (1 + nr) * 4 {
        proof {
            assert(restart_offset + 4 * nr + 4 == slice@.len()) by (nonlinear_arith)
                requires
                    restart_offset == slice@.len() - (1 + nr) * 4,
                    nr <= (slice@.len() - 4) / 4,
                    slice@.len() >= 4,
            ;
        }
        BlockIterator::new(comparator, slice, restart_offset, nr)
    } else {
        let empty = vstd::slice::slice_subrange(slice, 0, 0);
        BlockIterator::new(comparator, empty, 0, 0).with_status(
            Status::Corruption(String::from_str("bad block contents")),
        )
    }
}

/// A finished block and where to find it: implementors own or borrow the
/// bytes and hand out cursors over them.
pub trait Block: Sized {
    /// The block bytes.
    spec fn data_spec(&self) -> Seq<u8>;

    /// Where the restart trailer begins.
    spec fn restart_offset_spec(&self) -> int;

    /// The object points at a consistent trailer.
    spec fn inv(&self) -> bool;

    fn get_size(&self) -> (r: usize)
        requires
            self.inv(),
        ensures
            r == self.data_spec().len(),
    ;

    fn data<'a>(&'a self) -> (r: &'a [u8])
        requires
            self.inv(),
        ensures
            r@ == self.data_spec(),
    ;

    fn restart_offset(&self) -> (r: usize)
        requires
            self.inv(),
        ensures
            r == self.restart_offset_spec(),
    ;

    /// A fresh, unpositioned cursor over this block's entries.
    fn iter<'a, C: SliceComparator>(&'a self, comparator: C) -> (r: BlockIterator<'a, C>)
        requires
            self.inv(),
        ensures
            r.inv(),
            !r.valid_spec(),
            spec_num_restarts(self.data_spec()) >= 1 ==> {
                &&& r.data@ == self.data_spec()
                &&& r.restarts == self.restart_offset_spec()
                &&& r.num_restarts == spec_num_restarts(self.data_spec())
                &&& r.status is Okay
                &&& r.comparator == comparator
            },
            spec_num_restarts(self.data_spec()) == 0 ==> r.num_restarts == 0 && r.status
                is Okay,
    ;
}

/// A block that owns its bytes, fit for caching beyond the read that
/// produced it.
pub struct OwnedBlock {
    pub data: Vec<u8>,
    pub restart_offset: usize,
}

impl OwnedBlock {
    /// Takes possession of finished block bytes, checking that the
    /// restart trailer fits inside them.
    pub fn new(contents: &[u8]) -> (r: RubbleResult<OwnedBlock>)
        requires
            contents@.len() >= 4,
        ensures
            r is Ok <==> spec_num_restarts(contents@) <= (contents@.len() - 4) / 4,
            r is Ok ==> r->Ok_0.data@ == contents@ && r->Ok_0.inv(),
    {
        proof {
            vstd::slice::axiom_spec_len(contents);
        }
        let max_restarts_allowed = (contents.len() - 4) / 4;
        let nr = num_restarts(contents);
        if nr > max_restarts_allowed {
            return Err(RubbleError::Other("the block is too small for its restart count"));
        }
        proof {
            assert((1 + nr) * 4 == 4 + nr * 4) by (nonlinear_arith);
            assert(nr * 4 <= contents@.len() - 4) by (nonlinear_arith)
                requires
                    nr <= (contents@.len() - 4) / 4,
                    contents@.len() >= 4,
            ;
        }
        Ok(
            OwnedBlock {
                data: vstd::slice::slice_to_vec(contents),
                restart_offset: contents.len() - (1 + nr) * 4,
            },
        )
    }
}

impl Block for OwnedBlock {
    open spec fn data_spec(&self) -> Seq<u8> {
        self.data@
    }

    open spec fn restart_offset_spec(&self) -> int {
        self.restart_offset as int
    }

    open spec fn inv(&self) -> bool {
        block_geometry_ok(self.data@, self.restart_offset as int)
    }

    fn get_size(&self) -> (r: usize) {
        self.data.len()
    }

    fn data<'a>(&'a self) -> (r: &'a [u8]) {
        self.data.as_slice()
    }

    fn restart_offset(&self) -> (r: usize) {
        self.restart_offset
    }

    fn iter<'a, C: SliceComparator>(&'a self, comparator: C) -> (r: BlockIterator<'a, C>) {
        iter_slice(comparator, self.data.as_slice(), self.restart_offset)
    }
}

/// A block that borrows its bytes, tied to storage that outlives it.
pub struct SliceBlock<'a> {
    pub data: &'a [u8],
    pub restart_offset: usize,
}

impl<'a> SliceBlock<'a> {
    /// Wraps finished block bytes, checking that the restart trailer
    /// fits inside them.
    pub fn new(contents: &'a [u8]) -> (r: RubbleResult<SliceBlock<'a>>)
        requires
            contents@.len() >= 4,
        ensures
            r is Ok <==> spec_num_restarts(contents@) <= (contents@.len() - 4) / 4,
            r is Ok ==> r->Ok_0.data@ == contents@ && r->Ok_0.inv(),
    {
        proof {
            vstd::slice::axiom_spec_len(contents);
        }
        let max_restarts_allowed = (contents.len() - 4) / 4;
        let nr = num_restarts(contents);
        if nr > max_restarts_allowed {
            return Err(RubbleError::Other("the block is too small for its restart count"));
        }
        proof {
            assert((1 + nr) * 4 == 4 + nr * 4) by (nonlinear_arith);
            assert(nr * 4 <= contents@.len() - 4) by (nonlinear_arith)
                requires
                    nr <= (contents@.len() - 4) / 4,
                    contents@.len() >= 4,
            ;
        }
        Ok(SliceBlock { data: contents, restart_offset: contents.len() - (1 + nr) * 4 })
    }

    /// How many bytes the borrowed block takes.
    pub fn get_size(&self) -> (r: usize)
        ensures
            r == self.data@.len(),
    {
        self.data.len()
    }
}

impl<'a> Block for SliceBlock<'a> {
    open spec fn data_spec(&self) -> Seq<u8> {
        self.data@
    }

    open spec fn restart_offset_spec(&self) -> int {
        self.restart_offset as int
    }

    open spec fn inv(&self) -> bool {
        block_geometry_ok(self.data@, self.restart_offset as int)
    }

    fn get_size(&self) -> (r: usize) {
        self.data.len()
    }

    fn data<'b>(&'b self) -> (r: &'b [u8]) {
        self.data
    }

    fn restart_offset(&self) -> (r: usize) {
        self.restart_offset
    }

    fn iter<'b, C: SliceComparator>(&'b self, comparator: C) -> (r: BlockIterator<'b, C>) {
        iter_slice(comparator, self.data, self.restart_offset)
    }
}

/// A block built from keys added in strictly increasing order parses to
/// a sorted entry list, so binary-search seeks over it are exact.
pub proof fn lemma_built_block_sorted<C: SliceComparator>(
    c: C,
    entries: Seq<(Seq<u8>, Seq<u8>)>,
    k: nat,
)
    requires
        k >= 1,
        pairs_bounded(entries),
        forall|j: int|
            1 <= j < entries.len() ==> c.cmp_spec((#[trigger] entries[j]).0, entries[j - 1].0)
                > 0,
    ensures
        entries_sorted(
            c,
            block_entries(block_encoding(entries, k), block_data_encoding(entries, k).len())->0,
        ),
{
    lemma_block_round_trip(entries, k);
    let es = block_entries(block_encoding(entries, k), block_data_encoding(entries, k).len())->0;
    assert forall|j: int| 1 <= j < es.len() implies c.cmp_spec(
        (#[trigger] es[j]).key,
        es[j - 1].key,
    ) > 0 by {
        assert(es[j] == built_entry_info(entries, k, j));
        assert(es[j - 1] == built_entry_info(entries, k, j - 1));
        assert(es[j].key == entries[j].0 && es[j - 1].key == entries[j - 1].0);
    }
    assert forall|a: int, b: int| 0 <= a < b < es.len() implies c.cmp_spec(
        (#[trigger] es[a]).key,
        (#[trigger] es[b]).key,
    ) < 0 by {
        lemma_consecutive_sorted(c, es, a, b);
    }
}

} // verus!

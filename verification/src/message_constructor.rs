//! Reassembly of fragmented messages.
//!
//! A [`MessageConstructor`] buffers the fragments of one `(peer, session)`
//! pair.  Each fragment lands in the slot named by its index; a duplicate
//! overwrites.  When every slot is filled the constructor emits the
//! concatenation of all fragment payloads at full [`FRAGMENT_DSIZE`]
//! width — the codec is self-delimiting, so the zero padding after the
//! last fragment is harmless.  A fragment whose index is out of range is
//! an error and the caller must discard the whole entry.

use vstd::prelude::*;
use vstd::arithmetic::div_mod::{lemma_fundamental_div_mod, lemma_fundamental_div_mod_converse};
use crate::packet::{Fragment, FragmentV, FRAGMENT_DSIZE};
use crate::codec::{enc_message, dec_message, wf_message, lemma_dec_message};
use crate::message::MessageV;

verus! {

/// All slots hold a fragment.
pub open spec fn all_filled(slots: Seq<Option<FragmentV>>) -> bool {
    forall|i: int| 0 <= i < slots.len() ==> slots[i] is Some
}

/// The buffer a full set of slots assembles to: every fragment's payload
/// at full width, in index order.
pub open spec fn assembled(slots: Seq<Option<FragmentV>>) -> Seq<u8>
    decreases slots.len(),
{
    if slots.len() == 0 {
        Seq::empty()
    } else {
        assembled(slots.drop_last()) + (slots.last()->0).data
    }
}

/// `k` empty slots.
pub open spec fn empty_slots(k: nat) -> Seq<Option<FragmentV>> {
    Seq::new(k, |i: int| None)
}

// ---------------------------------------------------------------------------
// Fragmentation, modelled
// ---------------------------------------------------------------------------

/// How many fragments a buffer of `len` bytes splits into.
pub open spec fn n_fragments_of(len: nat) -> nat {
    ((len + FRAGMENT_DSIZE - 1) / (FRAGMENT_DSIZE as int)) as nat
}

/// The buffer padded with zeroes to `m` bytes (or cut, if shorter).
pub open spec fn padded(s: Seq<u8>, m: nat) -> Seq<u8> {
    Seq::new(
        m,
        |t: int|
            if t < s.len() {
                s[t]
            } else {
                0u8
            },
    )
}

/// The `i`-th full-width chunk of `s`, zero-padded at the end.
pub open spec fn chunk_of(s: Seq<u8>, i: int) -> Seq<u8> {
    Seq::new(
        FRAGMENT_DSIZE as nat,
        |j: int|
            if i * FRAGMENT_DSIZE + j < s.len() {
                s[i * FRAGMENT_DSIZE + j]
            } else {
                0u8
            },
    )
}

/// How many bytes of chunk `i` are meaningful.
pub open spec fn chunk_len_of(s: Seq<u8>, i: int) -> int {
    if s.len() - i * FRAGMENT_DSIZE >= FRAGMENT_DSIZE {
        FRAGMENT_DSIZE as int
    } else {
        s.len() - i * FRAGMENT_DSIZE
    }
}

/// The fragments a serialized buffer splits into.
pub open spec fn fragments_of(s: Seq<u8>) -> Seq<FragmentV> {
    Seq::new(
        n_fragments_of(s.len()),
        |i: int|
            FragmentV {
                fragment_index: i as u64,
                total_n_fragments: n_fragments_of(s.len()) as u64,
                length: chunk_len_of(s, i) as u8,
                data: chunk_of(s, i),
            },
    )
}

/// Splits a serialized buffer into wire fragments: full-width chunks,
/// zero-padded at the end, each naming its index, the total count, and
/// how many of its bytes are meaningful.
pub fn fragment_message(data: &Vec<u8>) -> (r: Vec<Fragment>)
    requires
        data@.len() >= 1,
    ensures
        r.deep_view() == fragments_of(data@),
        forall|k: int| 0 <= k < r@.len() ==> (#[trigger] r@[k]).wf(),
{
    let len = data.len();
    let total_usize = (len - 1) / FRAGMENT_DSIZE + 1;
    proof {
        lemma_fundamental_div_mod((len - 1) as int, FRAGMENT_DSIZE as int);
        lemma_fundamental_div_mod_converse(
            (len + FRAGMENT_DSIZE - 1) as int,
            FRAGMENT_DSIZE as int,
            ((len - 1) as int / (FRAGMENT_DSIZE as int)) + 1,
            ((len - 1) as int) % (FRAGMENT_DSIZE as int),
        );
        assert(total_usize == n_fragments_of(data@.len()));
    }
    let total = total_usize as u64;
    let mut r: Vec<Fragment> = Vec::new();
    let mut i: usize = 0;
    while i < total_usize
        invariant
            i <= total_usize,
            len == data@.len(),
            len >= 1,
            total_usize == n_fragments_of(data@.len()),
            total == total_usize as u64,
            total_usize <= len,
            r.deep_view() =~= fragments_of(data@).take(i as int),
            forall|k: int| 0 <= k < r@.len() ==> (#[trigger] r@[k]).wf(),
        decreases total_usize - i,
    {
        let mut chunk: Vec<u8> = Vec::new();
        let base = i * FRAGMENT_DSIZE;
        proof {
            assert(i * FRAGMENT_DSIZE <= len * FRAGMENT_DSIZE) by (nonlinear_arith)
                requires
                    i <= len,
            ;
        }
        let mut j: usize = 0;
        while j < FRAGMENT_DSIZE
            invariant
                j <= FRAGMENT_DSIZE,
                len == data@.len(),
                base == i * FRAGMENT_DSIZE,
                base <= len * FRAGMENT_DSIZE,
                chunk@.len() == j,
                forall|t: int|
                    0 <= t < j ==> chunk@[t] == chunk_of(data@, i as int)[t],
            decreases FRAGMENT_DSIZE - j,
        {
            if base + j < len {
                chunk.push(data[base + j]);
            } else {
                chunk.push(0);
            }
            j += 1;
        }
        proof {
            assert(chunk@ =~= chunk_of(data@, i as int));
        }
        let length: u8 = if len - base >= FRAGMENT_DSIZE {
            FRAGMENT_DSIZE as u8
        } else {
            (len - base) as u8
        };
        proof {
            lemma_fundamental_div_mod((len - 1) as int, FRAGMENT_DSIZE as int);
            assert(i * FRAGMENT_DSIZE <= ((len - 1) as int / (FRAGMENT_DSIZE as int))
                * FRAGMENT_DSIZE) by (nonlinear_arith)
                requires
                    i <= (len - 1) as int / (FRAGMENT_DSIZE as int),
            ;
            assert(base < len);
            assert(length as int == chunk_len_of(data@, i as int));
        }
        let fragment = Fragment {
            fragment_index: i as u64,
            total_n_fragments: total,
            length,
            data: chunk,
        };
        let ghost fv = fragment@;
        let ghost pre = r.deep_view();
        r.push(fragment);
        proof {
            assert(r.deep_view() =~= pre.push(fv));
            assert(fv.data =~= fragments_of(data@)[i as int].data);
            assert(fv == fragments_of(data@)[i as int]);
            assert(r.deep_view() =~= fragments_of(data@).take(i as int + 1));
        }
        i += 1;
    }
    proof {
        assert(fragments_of(data@).take(total_usize as int) =~= fragments_of(data@));
    }
    r
}

// ---------------------------------------------------------------------------
// A session's reassembly, modelled over a delivery sequence
// ---------------------------------------------------------------------------

/// One delivery: the fragment lands in the slot its index names.
pub open spec fn fill(slots: Seq<Option<FragmentV>>, f: FragmentV) -> Seq<Option<FragmentV>> {
    slots.update(f.fragment_index as int, Some(f))
}

/// Slot contents after the deliveries of `ds`, for an entry that is never
/// destroyed.
pub open spec fn filled_slots(k: nat, ds: Seq<FragmentV>) -> Seq<Option<FragmentV>>
    decreases ds.len(),
{
    if ds.len() == 0 {
        empty_slots(k)
    } else {
        fill(filled_slots(k, ds.drop_last()), ds.last())
    }
}

/// Every delivery is a genuine fragment of `s`, carried under its own
/// index.
pub open spec fn deliveries_of(ds: Seq<FragmentV>, s: Seq<u8>) -> bool {
    forall|i: int|
        0 <= i < ds.len() ==> (#[trigger] ds[i]).fragment_index < n_fragments_of(s.len())
            && ds[i] == fragments_of(s)[ds[i].fragment_index as int]
}

/// Index `j` arrives somewhere in `ds`.
pub open spec fn delivered(ds: Seq<FragmentV>, j: int) -> bool {
    exists|i: int| 0 <= i < ds.len() && (#[trigger] ds[i]).fragment_index == j
}

/// Every index below `k` arrives at least once.
pub open spec fn covers(ds: Seq<FragmentV>, k: nat) -> bool {
    forall|j: int| 0 <= j < k ==> #[trigger] delivered(ds, j)
}

/// What the slots hold after any delivery sequence: exactly the delivered
/// fragments, each under its own index.
proof fn lemma_filled_slots_state(s: Seq<u8>, ds: Seq<FragmentV>)
    requires
        deliveries_of(ds, s),
    ensures
        filled_slots(n_fragments_of(s.len()), ds).len() == n_fragments_of(s.len()),
        forall|j: int|
            0 <= j < n_fragments_of(s.len()) ==> (filled_slots(n_fragments_of(s.len()), ds)[j]
                is Some <==> #[trigger] delivered(ds, j)),
        forall|j: int|
            0 <= j < n_fragments_of(s.len()) && #[trigger] filled_slots(
                n_fragments_of(s.len()),
                ds,
            )[j] is Some ==> filled_slots(n_fragments_of(s.len()), ds)[j] == Some(
                fragments_of(s)[j],
            ),
    decreases ds.len(),
{
    let k = n_fragments_of(s.len());
    if ds.len() == 0 {
        assert forall|j: int| 0 <= j < k implies !delivered(ds, j) by {
            assert(forall|i: int| !(0 <= i < ds.len() && (#[trigger] ds[i]).fragment_index == j));
        }
    } else {
        let prefix = ds.drop_last();
        let d = ds.last();
        assert(deliveries_of(prefix, s)) by {
            assert(forall|i: int|
                0 <= i < prefix.len() ==> prefix[i] == ds[i]);
        }
        lemma_filled_slots_state(s, prefix);
        let jd = d.fragment_index as int;
        assert(ds[ds.len() - 1] == d);
        assert(d == fragments_of(s)[jd]);
        assert(delivered(ds, jd));
        assert forall|j: int| 0 <= j < k && j != jd implies (delivered(ds, j) <==> delivered(
            prefix,
            j,
        )) by {
            if delivered(ds, j) {
                let i = choose|i: int| 0 <= i < ds.len() && (#[trigger] ds[i]).fragment_index == j;
                assert(i < ds.len() - 1);
                assert(prefix[i] == ds[i]);
                assert(delivered(prefix, j));
            }
            if delivered(prefix, j) {
                let i = choose|i: int|
                    0 <= i < prefix.len() && (#[trigger] prefix[i]).fragment_index == j;
                assert(ds[i] == prefix[i]);
                assert(delivered(ds, j));
            }
        }
    }
}

/// A full set of slots holding the fragments of `s`, taken up to slot
/// `j`, assembles to the first `j` chunks of the padded buffer.
proof fn lemma_assembled_prefix(s: Seq<u8>, j: int)
    requires
        0 <= j <= n_fragments_of(s.len()),
    ensures
        assembled(
            Seq::new(n_fragments_of(s.len()), |i: int| Some(fragments_of(s)[i])).take(j),
        ) == padded(s, (j * FRAGMENT_DSIZE) as nat),
    decreases j,
{
    let k = n_fragments_of(s.len());
    let slots = Seq::new(k, |i: int| Some(fragments_of(s)[i]));
    if j == 0 {
        assert(slots.take(0) =~= Seq::<Option<FragmentV>>::empty());
        assert(assembled(slots.take(0)) =~= padded(s, 0));
    } else {
        lemma_assembled_prefix(s, j - 1);
        assert(slots.take(j).drop_last() =~= slots.take(j - 1));
        assert(slots.take(j).last() == slots[j - 1]);
        assert(assembled(slots.take(j)) == padded(s, ((j - 1) * FRAGMENT_DSIZE) as nat)
            + chunk_of(s, j - 1));
        assert(padded(s, ((j - 1) * FRAGMENT_DSIZE) as nat) + chunk_of(s, j - 1) =~= padded(
            s,
            (j * FRAGMENT_DSIZE) as nat,
        ));
    }
}

/// Ceiling division: the fragments cover the whole buffer.
proof fn lemma_fragments_cover(len: nat)
    ensures
        n_fragments_of(len) * FRAGMENT_DSIZE >= len,
        len >= 1 ==> n_fragments_of(len) >= 1,
        len <= u64::MAX ==> n_fragments_of(len) <= u64::MAX,
{
    let d = FRAGMENT_DSIZE as int;
    let a = len + d - 1;
    lemma_fundamental_div_mod(a as int, d);
    assert(a == d * (a / d) + a % d);
    assert(0 <= a % d < d);
}

/// Reassembly correctness: a message serialized and fragmented, its
/// fragments delivered in any order and with any duplications, fills the
/// slots — once every index has arrived — with exactly the original
/// fragments, and the assembled buffer decodes to exactly the original
/// message.
pub proof fn lemma_reassembly_round_trip(m: MessageV, ds: Seq<FragmentV>)
    requires
        wf_message(m),
        enc_message(m).len() <= u64::MAX,
        deliveries_of(ds, enc_message(m)),
        covers(ds, n_fragments_of(enc_message(m).len())),
    ensures
        ({
            let s = enc_message(m);
            let slots = filled_slots(n_fragments_of(s.len()), ds);
            &&& all_filled(slots)
            &&& dec_message(assembled(slots), 0) == Some((m, s.len() as int))
        }),
{
    let s = enc_message(m);
    let k = n_fragments_of(s.len());
    let slots = filled_slots(k, ds);
    lemma_filled_slots_state(s, ds);
    assert forall|j: int| 0 <= j < slots.len() implies slots[j] is Some by {
        assert(delivered(ds, j));
    }
    let full = Seq::new(k, |i: int| Some(fragments_of(s)[i]));
    assert(slots =~= full);
    lemma_assembled_prefix(s, k as int);
    assert(full.take(k as int) =~= full);
    lemma_fragments_cover(s.len());
    let b = padded(s, (k * FRAGMENT_DSIZE) as nat);
    assert(s.len() >= 1);
    assert(b.subrange(0, s.len() as int) =~= s);
    lemma_dec_message(b, m);
}

// ---------------------------------------------------------------------------
// Emission counting
// ---------------------------------------------------------------------------

/// Slot contents after the deliveries of `ds`, where the entry is
/// destroyed — and so starts afresh — each time it completes.
pub open spec fn session_state(k: nat, ds: Seq<FragmentV>) -> Seq<Option<FragmentV>>
    decreases ds.len(),
{
    if ds.len() == 0 {
        empty_slots(k)
    } else {
        let next = fill(session_state(k, ds.drop_last()), ds.last());
        if all_filled(next) {
            empty_slots(k)
        } else {
            next
        }
    }
}

/// How many completed buffers the deliveries of `ds` emit.
pub open spec fn session_emissions(k: nat, ds: Seq<FragmentV>) -> nat
    decreases ds.len(),
{
    if ds.len() == 0 {
        0
    } else {
        session_emissions(k, ds.drop_last()) + if all_filled(
            fill(session_state(k, ds.drop_last()), ds.last()),
        ) {
            1nat
        } else {
            0nat
        }
    }
}

/// How many slots hold a fragment.
pub open spec fn num_filled(slots: Seq<Option<FragmentV>>) -> nat
    decreases slots.len(),
{
    if slots.len() == 0 {
        0
    } else {
        num_filled(slots.drop_last()) + if slots.last() is Some {
            1nat
        } else {
            0nat
        }
    }
}

/// Filling one slot raises the count by at most one, and never lowers it.
proof fn lemma_num_filled_update(slots: Seq<Option<FragmentV>>, p: int, f: FragmentV)
    requires
        0 <= p < slots.len(),
    ensures
        num_filled(slots.update(p, Some(f))) <= num_filled(slots) + 1,
        num_filled(slots.update(p, Some(f))) >= num_filled(slots),
    decreases slots.len(),
{
    let n = slots.len() as int;
    let upd = slots.update(p, Some(f));
    if p == n - 1 {
        assert(upd.drop_last() =~= slots.drop_last());
    } else {
        assert(upd.drop_last() =~= slots.drop_last().update(p, Some(f)));
        lemma_num_filled_update(slots.drop_last(), p, f);
        assert(upd.last() == slots.last());
    }
}

/// Full slots count to their length.
proof fn lemma_num_filled_all(slots: Seq<Option<FragmentV>>)
    requires
        all_filled(slots),
    ensures
        num_filled(slots) == slots.len(),
    decreases slots.len(),
{
    if slots.len() > 0 {
        assert(all_filled(slots.drop_last()));
        lemma_num_filled_all(slots.drop_last());
    }
}

/// Empty slots count to zero.
proof fn lemma_num_filled_empty(k: nat)
    ensures
        num_filled(empty_slots(k)) == 0,
    decreases k,
{
    if k > 0 {
        assert(empty_slots(k).drop_last() =~= empty_slots((k - 1) as nat));
        lemma_num_filled_empty((k - 1) as nat);
    }
}

/// Each emission costs a full set of `k` deliveries: duplicates can never
/// complete a message by themselves.
proof fn lemma_session_budget(s: Seq<u8>, ds: Seq<FragmentV>)
    requires
        deliveries_of(ds, s),
    ensures
        session_state(n_fragments_of(s.len()), ds).len() == n_fragments_of(s.len()),
        session_emissions(n_fragments_of(s.len()), ds) * n_fragments_of(s.len()) + num_filled(
            session_state(n_fragments_of(s.len()), ds),
        ) <= ds.len(),
    decreases ds.len(),
{
    let k = n_fragments_of(s.len());
    if ds.len() == 0 {
        lemma_num_filled_empty(k);
    } else {
        let prefix = ds.drop_last();
        let d = ds.last();
        assert(deliveries_of(prefix, s)) by {
            assert(forall|i: int| 0 <= i < prefix.len() ==> prefix[i] == ds[i]);
        }
        lemma_session_budget(s, prefix);
        let prev = session_state(k, prefix);
        let next = fill(prev, d);
        assert(ds[ds.len() - 1] == d);
        assert(d.fragment_index < k);
        lemma_num_filled_update(prev, d.fragment_index as int, d);
        let e0 = session_emissions(k, prefix);
        assert(e0 * k + num_filled(prev) <= prefix.len());
        if all_filled(next) {
            lemma_num_filled_all(next);
            lemma_num_filled_empty(k);
            assert(session_state(k, ds) == empty_slots(k));
            assert(session_emissions(k, ds) == e0 + 1);
            assert(num_filled(next) == k);
            assert(k <= num_filled(prev) + 1);
            assert((e0 + 1) * k == e0 * k + k) by (nonlinear_arith);
            assert(e0 * k + k <= e0 * k + num_filled(prev) + 1);
            assert(e0 * k + num_filled(prev) + 1 <= prefix.len() + 1);
            assert(session_emissions(k, ds) * k + num_filled(session_state(k, ds)) == (e0 + 1) * k);
            assert(prefix.len() + 1 == ds.len());
        } else {
            assert(session_state(k, ds) == next);
            assert(session_emissions(k, ds) == e0);
            assert(num_filled(next) <= num_filled(prev) + 1);
            assert(e0 * k + num_filled(next) <= prefix.len() + 1);
        }
        assert(session_emissions(k, ds) * k + num_filled(session_state(k, ds)) <= ds.len());
        assert(session_state(k, ds).len() == k);
    }
}

/// At-most-once delivery: while fewer than two full sets of fragments
/// have arrived — however duplicated or reordered — at most one complete
/// message is handed up for this `(peer, session)`.
pub proof fn lemma_at_most_once(s: Seq<u8>, ds: Seq<FragmentV>)
    requires
        s.len() >= 1,
        s.len() <= u64::MAX,
        deliveries_of(ds, s),
        ds.len() < 2 * n_fragments_of(s.len()),
    ensures
        session_emissions(n_fragments_of(s.len()), ds) <= 1,
{
    let k = n_fragments_of(s.len());
    lemma_fragments_cover(s.len());
    lemma_session_budget(s, ds);
    let e = session_emissions(k, ds);
    if e >= 2 {
        assert(e * k >= 2 * k) by (nonlinear_arith)
            requires
                e >= 2,
                k >= 1,
        ;
    }
}

/// The index of the first empty slot at or after `start`, or the length
/// when every slot from `start` on is filled.
fn scan_filled(fragments: &Vec<Option<Fragment>>, start: usize) -> (r: usize)
    requires
        start <= fragments@.len(),
        forall|j: int| 0 <= j < start ==> fragments@[j] is Some,
    ensures
        start <= r <= fragments@.len(),
        forall|j: int| 0 <= j < r ==> fragments@[j] is Some,
        r < fragments@.len() ==> fragments@[r as int] is None,
{
    let mut i = start;
    let n = fragments.len();
    while i < n
        invariant_except_break
            start <= i <= n,
            n == fragments@.len(),
            forall|j: int| 0 <= j < i ==> fragments@[j] is Some,
        ensures
            start <= i <= n,
            n == fragments@.len(),
            forall|j: int| 0 <= j < i ==> fragments@[j] is Some,
            i < n ==> fragments@[i as int] is None,
        decreases n - i,
    {
        if fragments[i].is_some() {
            i += 1;
        } else {
            break;
        }
    }
    i
}

/// Reassembly state keyed by one `(peer, session)` pair.
pub struct MessageConstructor {
    fragments_len: u64,
    fragments: Vec<Option<Fragment>>,
    completed_up_to: u64,
}

impl MessageConstructor {
    /// How many fragments the message has, fixed at creation.
    pub closed spec fn total(&self) -> u64 {
        self.fragments_len
    }

    /// The current slot contents.
    pub closed spec fn slots(&self) -> Seq<Option<FragmentV>> {
        Seq::new(
            self.fragments@.len(),
            |i: int|
                match self.fragments@[i] {
                    Some(f) => Some(f@),
                    None => None,
                },
        )
    }

    /// Internal consistency: one slot per expected fragment, every slot
    /// below the completion cursor filled, every held fragment full-width.
    pub closed spec fn wf(&self) -> bool {
        &&& self.fragments@.len() == self.fragments_len
        &&& self.completed_up_to <= self.fragments_len
        &&& forall|i: int|
            0 <= i < self.completed_up_to ==> self.fragments@[i] is Some
        &&& forall|i: int|
            0 <= i < self.fragments@.len() && self.fragments@[i] is Some
                ==> (#[trigger] self.fragments@[i])->0.wf()
    }

    /// A fresh constructor with `fragments_len` empty slots.
    pub fn new(fragments_len: u64) -> (r: Self)
        requires
            fragments_len <= usize::MAX,
        ensures
            r.wf(),
            r.total() == fragments_len,
            r.slots() =~= empty_slots(fragments_len as nat),
    {
        let n = fragments_len as usize;
        let mut fragments: Vec<Option<Fragment>> = Vec::new();
        let mut i: usize = 0;
        while i < n
            invariant
                i <= n,
                fragments@.len() == i,
                forall|j: int| 0 <= j < i ==> fragments@[j] is None,
            decreases n - i,
        {
            fragments.push(None);
            i += 1;
        }
        MessageConstructor { fragments_len, fragments, completed_up_to: 0 }
    }

    /// Stores a fragment and reports completion.
    ///
    /// Out-of-range indices are refused and leave the state unchanged;
    /// the caller must then drop the whole entry.  In-range fragments
    /// land in their slot (a duplicate overwrites); when afterwards every
    /// slot is filled, the assembled buffer is returned.
    pub fn add_packet(&mut self, fragment: Fragment) -> (r: Result<Option<Vec<u8>>, ()>)
        requires
            old(self).wf(),
            fragment.wf(),
        ensures
            final(self).wf(),
            final(self).total() == old(self).total(),
            match r {
                Err(()) => {
                    &&& fragment.fragment_index >= old(self).total()
                    &&& final(self).slots() == old(self).slots()
                },
                Ok(opt) => {
                    &&& fragment.fragment_index < old(self).total()
                    &&& final(self).slots() == old(self).slots().update(
                        fragment.fragment_index as int,
                        Some(fragment@),
                    )
                    &&& match opt {
                        Some(buffer) => {
                            &&& all_filled(final(self).slots())
                            &&& buffer@ == assembled(final(self).slots())
                        },
                        None => !all_filled(final(self).slots()),
                    }
                },
            },
    {
        let frag_index = fragment.fragment_index;
        if frag_index >= self.fragments_len {
            return Err(());
        }
        let n = self.fragments.len();
        assert(frag_index < n);
        let idx = frag_index as usize;
        let ghost frag_model = fragment@;
        self.fragments.set(idx, Some(fragment));
        proof {
            let s_new = self.slots();
            let s_old = old(self).slots();
            assert forall|i: int| 0 <= i < s_new.len() implies s_new[i] == s_old.update(
                frag_index as int,
                Some(frag_model),
            )[i] by {
                if i == frag_index as int {
                    assert(self.fragments@[i] == Some(fragment));
                } else {
                    assert(self.fragments@[i] == old(self).fragments@[i]);
                }
            }
            assert(s_new =~= s_old.update(frag_index as int, Some(frag_model)));
        }

        let start = self.completed_up_to as usize;
        self.completed_up_to = scan_filled(&self.fragments, start) as u64;

        if self.completed_up_to == self.fragments_len {
            proof {
                assert forall|i: int| 0 <= i < self.slots().len() implies self.slots()[i]
                    is Some by {
                    assert(self.fragments@[i] is Some);
                }
            }
            assert(all_filled(self.slots()));
            let mut buffer: Vec<u8> = Vec::new();
            let mut i: usize = 0;
            let n = self.fragments.len();
            while i < n
                invariant
                    i <= n,
                    n == self.fragments@.len(),
                    self.wf(),
                    all_filled(self.slots()),
                    buffer@ == assembled(self.slots().take(i as int)),
                decreases n - i,
            {
                let ghost pre = buffer@;
                if let Some(f) = &self.fragments[i] {
                    buffer.extend_from_slice(f.data.as_slice());
                    proof {
                        assert(self.slots().take(i + 1).drop_last() =~= self.slots().take(
                            i as int,
                        ));
                        assert(self.slots().take(i + 1).last() == self.slots()[i as int]);
                        assert(buffer@ == pre + f@.data);
                    }
                } else {
                    proof {
                        assert(self.slots()[i as int] is Some);
                        assert(false);
                    }
                }
                i += 1;
            }
            assert(self.slots().take(n as int) =~= self.slots());
            Ok(Some(buffer))
        } else {
            assert(!all_filled(self.slots())) by {
                assert(self.slots()[self.completed_up_to as int] is None);
            }
            Ok(None)
        }
    }
}

} // verus!

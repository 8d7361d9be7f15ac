//! Captured output: kept up to a cap, beyond which its middle is dropped.

use std::collections::VecDeque;
use vstd::prelude::*;
use vstd::utf8::*;

use crate::bytes;

verus! {

/// The bytes of a marker that stands for what was dropped.
pub open spec fn marker_bytes(marker: Seq<char>) -> Seq<u8> {
    encode_utf8(marker)
}

/// What is kept of an output under a cap: all of it where it fits, else as much of its start
/// and of its end as fits around the marker, and the marker alone where even that does not fit.
pub open spec fn capped_output(all: Seq<u8>, cap: nat, marker: Seq<u8>) -> (Seq<u8>, bool) {
    if all.len() <= cap {
        (all, false)
    } else if cap <= marker.len() {
        (marker, true)
    } else {
        let keep = cap - marker.len();
        let head = keep / 2;
        let tail = keep - head;
        (all.take(head) + marker + all.skip(all.len() - tail), true)
    }
}

/// The last bytes of a byte string, up to a limit.
pub open spec fn last_bytes(all: Seq<u8>, limit: int) -> Seq<u8> {
    if all.len() <= limit {
        all
    } else {
        all.skip(all.len() - limit)
    }
}

/// Cuts an output down to a cap.
pub fn truncate_output(output: Vec<u8>, cap: usize, marker: &str) -> (r: (Vec<u8>, bool))
    ensures
        (r.0@, r.1) == capped_output(output@, cap as nat, marker_bytes(marker@)),
{
    if output.len() <= cap {
        return (output, false);
    }
    let mark = marker.as_bytes();
    if cap <= mark.len() {
        return (bytes::copy(mark), true);
    }
    let keep: usize = cap - mark.len();
    let head: usize = keep / 2;
    let tail: usize = keep - head;
    let mut out: Vec<u8> = Vec::new();
    bytes::extend(&mut out, bytes::slice(output.as_slice(), 0, head));
    bytes::extend(&mut out, mark);
    bytes::extend(&mut out, bytes::slice(output.as_slice(), output.len() - tail, output.len()));
    proof {
        assert(output@.subrange(0, head as int) =~= output@.take(head as int));
        assert(output@.subrange(output@.len() - tail, output@.len() as int) =~= output@.skip(
            output@.len() - tail,
        ));
        assert(out@ =~= output@.take(head as int) + marker_bytes(marker@) + output@.skip(
            output@.len() - tail,
        ));
    }
    (out, true)
}

/// An output that is captured while it is written, in no more memory than its cap.
pub struct CappedOutput {
    cap: usize,
    marker: &'static str,
    /// All that was written, while it fits.
    pre_truncation: Vec<u8>,
    head: Vec<u8>,
    tail: VecDeque<u8>,
    truncated: bool,
    written: Ghost<Seq<u8>>,
}

impl CappedOutput {
    spec fn head_len(&self) -> int {
        (self.cap - marker_bytes(self.marker@).len()) / 2
    }

    spec fn tail_len(&self) -> int {
        self.cap - marker_bytes(self.marker@).len() - self.head_len()
    }

    #[verifier::type_invariant]
    spec fn inv(&self) -> bool {
        let all = self.written@;
        if !self.truncated {
            &&& self.pre_truncation@ == all
            &&& all.len() <= self.cap
            &&& self.head@.len() == 0
            &&& self.tail@.len() == 0
        } else {
            &&& all.len() > self.cap
            &&& self.cap > marker_bytes(self.marker@).len() ==> {
                &&& self.head@ == all.take(self.head_len())
                &&& self.tail@ == all.skip(all.len() - self.tail_len())
            }
        }
    }

    /// All that has been written.
    pub closed spec fn written(&self) -> Seq<u8> {
        self.written@
    }

    pub closed spec fn cap(&self) -> nat {
        self.cap as nat
    }

    pub closed spec fn marker(&self) -> Seq<char> {
        self.marker@
    }

    pub fn new(cap: usize, marker: &'static str) -> (r: Self)
        ensures
            r.written() == Seq::<u8>::empty(),
            r.cap() == cap,
            r.marker() == marker@,
    {
        CappedOutput {
            cap,
            marker,
            pre_truncation: Vec::new(),
            head: Vec::new(),
            tail: VecDeque::new(),
            truncated: false,
            written: Ghost(Seq::<u8>::empty()),
        }
    }

    /// Appends bytes to the output.
    pub fn write(&mut self, data: &[u8])
        ensures
            final(self).written() == old(self).written() + data@,
            final(self).cap() == old(self).cap(),
            final(self).marker() == old(self).marker(),
    {
        proof {
            use_type_invariant(&*self);
        }
        let ghost before = self.written@;
        let ghost all = before + data@;
        let cap: usize = self.cap;
        let marker: &'static str = self.marker;
        let marker_len: usize = marker.as_bytes().len();
        let mut next = CappedOutput::new(cap, marker);
        std::mem::swap(self, &mut next);
        proof {
            assert(next.written@ == before);
        }
        let CappedOutput {
            cap: _,
            marker: _,
            mut pre_truncation,
            mut head,
            mut tail,
            truncated,
            written: _,
        } = next;
        if !truncated && data.len() <= cap - pre_truncation.len() {
            bytes::extend(&mut pre_truncation, data);
            *self = CappedOutput {
                cap,
                marker,
                pre_truncation,
                head,
                tail,
                truncated: false,
                written: Ghost(all),
            };
            return;
        }
        if cap > marker_len {
            let keep: usize = cap - marker_len;
            let head_len: usize = keep / 2;
            let tail_len: usize = keep - head_len;
            let mut rest: usize = 0;
            if !truncated {
                rest = cap - pre_truncation.len();
                bytes::extend(&mut pre_truncation, bytes::slice(data, 0, rest));
                proof {
                    assert(pre_truncation@ =~= all.take(cap as int));
                }
                let (start, end) = both_ends(&pre_truncation, head_len, tail_len);
                head = start;
                tail = end;
            }
            let ghost seen = if truncated { before } else { all.take(cap as int) };
            let more = bytes::slice(data, rest, data.len());
            push_tail(&mut tail, more, tail_len);
            proof {
                assert(all =~= seen + more@);
                lemma_tail_grows(seen, more@, tail_len as int);
                lemma_head_stays(seen, more@, head_len as int);
            }
        }
        let empty: Vec<u8> = Vec::new();
        *self = CappedOutput {
            cap,
            marker,
            pre_truncation: empty,
            head,
            tail,
            truncated: true,
            written: Ghost(all),
        };
    }

    /// What is kept of the output, and whether any of it was dropped.
    pub fn finish(&self) -> (r: (Vec<u8>, bool))
        ensures
            (r.0@, r.1) == capped_output(self.written(), self.cap(), marker_bytes(self.marker())),
    {
        proof {
            use_type_invariant(self);
        }
        if !self.truncated {
            return (bytes::copy(self.pre_truncation.as_slice()), false);
        }
        let mark = self.marker.as_bytes();
        if self.cap <= mark.len() {
            return (bytes::copy(mark), true);
        }
        let mut out: Vec<u8> = Vec::new();
        bytes::extend(&mut out, self.head.as_slice());
        bytes::extend(&mut out, mark);
        let ghost start = out@;
        let mut i: usize = 0;
        while i < self.tail.len()
            invariant
                i <= self.tail@.len(),
                out@ == start + self.tail@.take(i as int),
            decreases self.tail@.len() - i,
        {
            out.push(self.tail[i]);
            i = i + 1;
            proof {
                assert(out@ =~= start + self.tail@.take(i as int));
            }
        }
        proof {
            assert(self.tail@.take(i as int) =~= self.tail@);
            let keep = self.cap as nat - marker_bytes(self.marker@).len();
            assert(out@ =~= self.written@.take(self.head_len()) + marker_bytes(self.marker@)
                + self.written@.skip(self.written@.len() - self.tail_len()));
        }
        (out, true)
    }
}

proof fn lemma_tail_grows(seen: Seq<u8>, more: Seq<u8>, tail: int)
    requires
        0 <= tail <= seen.len(),
    ensures
        last_bytes(seen.skip(seen.len() - tail) + more, tail) == (seen + more).skip(
            (seen + more).len() - tail,
        ),
{
    assert(last_bytes(seen.skip(seen.len() - tail) + more, tail) =~= (seen + more).skip(
        (seen + more).len() - tail,
    ));
}

proof fn lemma_head_stays(seen: Seq<u8>, more: Seq<u8>, head: int)
    requires
        0 <= head <= seen.len(),
    ensures
        (seen + more).take(head) == seen.take(head),
{
    assert((seen + more).take(head) =~= seen.take(head));
}

/// The first `head_len` bytes and the last `tail_len` bytes.
fn both_ends(full: &Vec<u8>, head_len: usize, tail_len: usize) -> (r: (Vec<u8>, VecDeque<u8>))
    requires
        head_len <= full@.len(),
        tail_len <= full@.len(),
    ensures
        r.0@ == full@.take(head_len as int),
        r.1@ == full@.skip(full@.len() - tail_len),
{
    let head = bytes::copy(bytes::slice(full.as_slice(), 0, head_len));
    let mut tail: VecDeque<u8> = VecDeque::new();
    push_tail(
        &mut tail,
        bytes::slice(full.as_slice(), full.len() - tail_len, full.len()),
        tail_len,
    );
    proof {
        assert(head@ =~= full@.take(head_len as int));
        assert(tail@ =~= full@.skip(full@.len() - tail_len));
    }
    (head, tail)
}

/// Keeps the last `limit` bytes of the tail with more bytes behind it.
fn push_tail(tail: &mut VecDeque<u8>, data: &[u8], limit: usize)
    requires
        old(tail)@.len() <= limit,
    ensures
        final(tail)@ == last_bytes(old(tail)@ + data@, limit as int),
        final(tail)@.len() <= limit,
{
    let ghost before = tail@;
    let ghost all = before + data@;
    if data.len() >= limit {
        tail.clear();
        let mut i: usize = data.len() - limit;
        while i < data.len()
            invariant
                limit <= data@.len(),
                data@.len() - limit <= i <= data@.len(),
                tail@ == data@.subrange(data@.len() - limit, i as int),
            decreases data@.len() - i,
        {
            tail.push_back(data[i]);
            i = i + 1;
            proof {
                assert(tail@ =~= data@.subrange(data@.len() - limit, i as int));
            }
        }
        proof {
            assert(tail@ =~= last_bytes(all, limit as int));
        }
        return;
    }
    let room: usize = limit - data.len();
    while tail.len() > room
        invariant
            data@.len() < limit,
            room == limit - data@.len(),
            tail@.len() <= before.len(),
            before.len() <= limit,
            tail@ == before.skip(before.len() - tail@.len()),
            tail@.len() == before.len() || tail@.len() >= room,
        decreases tail@.len(),
    {
        let _ = tail.pop_front();
        proof {
            assert(tail@ =~= before.skip(before.len() - tail@.len()));
        }
    }
    let ghost kept = tail@;
    let mut i: usize = 0;
    proof {
        assert(kept + data@.take(0) =~= kept);
    }
    while i < data.len()
        invariant
            i <= data@.len(),
            tail@ == kept + data@.take(i as int),
        decreases data@.len() - i,
    {
        tail.push_back(data[i]);
        i = i + 1;
        proof {
            assert(tail@ =~= kept + data@.take(i as int));
        }
    }
    proof {
        assert(data@.take(i as int) =~= data@);
        assert(tail@ =~= last_bytes(all, limit as int));
    }
}

/// An output that was cut down is no longer than its cap, or is the marker alone; it is
/// exactly as long as its cap where the marker fits, starts as the output starts and ends as
/// the output ends.
pub proof fn law_capped_output_keeps_both_ends(all: Seq<u8>, cap: nat, marker: Seq<u8>)
    ensures
        ({
            let (kept, truncated) = capped_output(all, cap, marker);
            &&& truncated <==> all.len() > cap
            &&& !truncated ==> kept == all
            &&& truncated && cap <= marker.len() ==> kept == marker
            &&& truncated && cap > marker.len() ==> {
                let head = ((cap - marker.len()) / 2) as int;
                let tail = cap - marker.len() - head;
                &&& kept.len() == cap
                &&& kept.take(head) == all.take(head)
                &&& kept.subrange(head, head + marker.len()) == marker
                &&& kept.skip(kept.len() - tail) == all.skip(all.len() - tail)
            }
        }),
{
    if all.len() > cap && cap > marker.len() {
        let head = ((cap - marker.len()) / 2) as int;
        let tail = cap - marker.len() - head;
        let kept = capped_output(all, cap, marker).0;
        assert(kept.take(head) =~= all.take(head));
        assert(kept.subrange(head, head + marker.len()) =~= marker);
        assert(kept.skip(kept.len() - tail) =~= all.skip(all.len() - tail));
    }
}

} // verus!

//! The rings that carry sound between threads.
//!
//! A ring has one end that puts samples in and one that takes them out. A sample is the bit pattern
//! of a floating-point number; the rings only carry it. Sound comes in frames of two samples, left
//! and right, and a frame is never torn: half a frame would swap the two sides from then on.
use crate::audio;
use vstd::prelude::*;

verus! {

/// How many samples the ring between the receiver and the sound output has room for.
pub const SOUND_RING: usize = 48_000;

/// The end of a ring of the crate `rtrb` that puts items in.
#[verifier::external_type_specification]
#[verifier::external_body]
#[verifier::reject_recursive_types(T)]
pub struct ExProducer<T>(rtrb::Producer<T>);

/// The end of a ring of the crate `rtrb` that takes items out.
#[verifier::external_type_specification]
#[verifier::external_body]
#[verifier::reject_recursive_types(T)]
pub struct ExConsumer<T>(rtrb::Consumer<T>);

/// Everything that was put in at this end, in order.
pub uninterp spec fn pushed(tx: rtrb::Producer<u32>) -> Seq<u32>;

/// How many items this end knows there to be room for; the other end can only make more.
pub uninterp spec fn free(tx: rtrb::Producer<u32>) -> nat;

/// Everything that was taken out at this end, in order.
pub uninterp spec fn taken(rx: rtrb::Consumer<u32>) -> Seq<u32>;

/// The items that this end knows to be waiting, in order; the other end can only add to them.
pub uninterp spec fn waiting(rx: rtrb::Consumer<u32>) -> Seq<u32>;

/// `rtrb::RingBuffer::new`: a new ring is empty, its one end knows of all the room, its other end of
/// no items.
#[verifier::external_body]
fn ring_new(capacity: usize) -> (r: (rtrb::Producer<u32>, rtrb::Consumer<u32>))
    requires
        capacity <= LARGEST_RING,
    ensures
        pushed(r.0) == Seq::<u32>::empty(),
        free(r.0) == capacity,
        taken(r.1) == Seq::<u32>::empty(),
        waiting(r.1) == Seq::<u32>::empty(),
{
    rtrb::RingBuffer::new(capacity)
}

/// `rtrb::Producer::slots`: looks up how much room there is, which is never less than was known.
#[verifier::external_body]
fn producer_slots(tx: &mut rtrb::Producer<u32>) -> (n: usize)
    ensures
        pushed(*final(tx)) == pushed(*old(tx)),
        free(*final(tx)) == n,
        free(*old(tx)) <= n,
{
    tx.slots()
}

/// `rtrb::Producer::push`: puts an item in, if there is room. Where room was known of, it is put in
/// for sure and takes one place of it; where it is not put in, there is no room.
#[verifier::external_body]
fn producer_push(tx: &mut rtrb::Producer<u32>, value: u32) -> (done: bool)
    ensures
        free(*old(tx)) > 0 ==> done && free(*final(tx)) == free(*old(tx)) - 1,
        done ==> pushed(*final(tx)) == pushed(*old(tx)).push(value),
        !done ==> pushed(*final(tx)) == pushed(*old(tx)) && free(*final(tx)) == 0,
{
    tx.push(value).is_ok()
}

/// `rtrb::Consumer::slots`: looks up how many items are waiting. Those that were known of come
/// first.
#[verifier::external_body]
fn consumer_slots(rx: &mut rtrb::Consumer<u32>) -> (n: usize)
    ensures
        taken(*final(rx)) == taken(*old(rx)),
        waiting(*final(rx)).len() == n,
        waiting(*old(rx)).len() <= n,
        waiting(*final(rx)).take(waiting(*old(rx)).len() as int) == waiting(*old(rx)),
{
    rx.slots()
}

/// `rtrb::Consumer::pop`: takes the first item out, if there is one. Where items were known of, it
/// is the first of them, and the others are still known of.
#[verifier::external_body]
fn consumer_pop(rx: &mut rtrb::Consumer<u32>) -> (r: Option<u32>)
    ensures
        waiting(*old(rx)).len() > 0 ==> r == Some(waiting(*old(rx))[0]) && waiting(*final(rx))
            == waiting(*old(rx)).drop_first(),
        r matches Some(v) ==> taken(*final(rx)) == taken(*old(rx)).push(v),
        r is None ==> taken(*final(rx)) == taken(*old(rx)) && waiting(*final(rx)).len() == 0,
{
    rx.pop().ok()
}

/// The largest ring that every machine can hold: on some, no more bytes than half of four gigabytes
/// can be had in one piece.
pub const LARGEST_RING: usize = 0x1FFF_FFFF;

/// A ring with room for so many samples.
pub fn ring_of(capacity: usize) -> (r: (rtrb::Producer<u32>, rtrb::Consumer<u32>))
    requires
        capacity <= LARGEST_RING,
    ensures
        pushed(r.0) == Seq::<u32>::empty(),
        free(r.0) == capacity,
        taken(r.1) == Seq::<u32>::empty(),
        waiting(r.1) == Seq::<u32>::empty(),
{
    ring_new(capacity)
}

/// A ring between the receiver and the sound output.
pub fn sound_ring() -> (r: (rtrb::Producer<u32>, rtrb::Consumer<u32>))
    ensures
        pushed(r.0) == Seq::<u32>::empty(),
        free(r.0) == SOUND_RING,
        taken(r.1) == Seq::<u32>::empty(),
        waiting(r.1) == Seq::<u32>::empty(),
{
    ring_of(SOUND_RING)
}

/// Puts whole frames in while there is room for them, and tells how many. What is left over is
/// lost: the output keeps its own pace. A single sample at the end is not a frame.
pub fn feed_frames(tx: &mut rtrb::Producer<u32>, samples: &[u32]) -> (frames: usize)
    ensures
        2 * frames <= samples@.len(),
        pushed(*final(tx)) == pushed(*old(tx)) + samples@.take(2 * frames),
        pushed(*final(tx)).len() % 2 == pushed(*old(tx)).len() % 2,
        2 * frames + 2 <= samples@.len() ==> free(*final(tx)) < 2,
        samples@.len() <= free(*old(tx)) ==> 2 * frames + 2 > samples@.len(),
{
    let mut frames: usize = 0;
    assert(samples@.take(0) == Seq::<u32>::empty());
    assert(pushed(*tx) =~= pushed(*old(tx)) + samples@.take(0));
    let total: usize = samples.len() / 2;
    while frames < total
        invariant
            frames <= total,
            total == samples@.len() / 2,
            samples@.len() <= usize::MAX,
            pushed(*tx) == pushed(*old(tx)) + samples@.take(2 * frames),
            samples@.len() <= free(*old(tx)) ==> samples@.len() - 2 * frames <= free(*tx),
        decreases total - frames,
    {
        if producer_slots(tx) < 2 {
            return frames;
        }
        let _ = producer_push(tx, samples[2 * frames]);
        let _ = producer_push(tx, samples[2 * frames + 1]);
        assert(samples@.take(2 * frames).push(samples@[2 * frames as int]).push(
            samples@[2 * frames + 1],
        ) =~= samples@.take(2 * frames + 2));
        assert(pushed(*tx) =~= pushed(*old(tx)) + samples@.take(2 * frames + 2));
        frames = frames + 1;
    }
    frames
}

/// Puts samples in from a place on, until all are in or there is no more room, and tells how far it
/// came.
pub fn feed_from(tx: &mut rtrb::Producer<u32>, samples: &[u32], from: usize) -> (to: usize)
    requires
        from <= samples@.len(),
    ensures
        from <= to <= samples@.len(),
        pushed(*final(tx)) == pushed(*old(tx)) + samples@.subrange(from as int, to as int),
        to < samples@.len() ==> free(*final(tx)) == 0,
        samples@.len() - from <= free(*old(tx)) ==> to == samples@.len(),
{
    let mut to: usize = from;
    assert(pushed(*tx) =~= pushed(*old(tx)) + samples@.subrange(from as int, from as int));
    while to < samples.len()
        invariant
            from <= to <= samples@.len(),
            pushed(*tx) == pushed(*old(tx)) + samples@.subrange(from as int, to as int),
            samples@.len() - from <= free(*old(tx)) ==> samples@.len() - to <= free(*tx),
        decreases samples@.len() - to,
    {
        if !producer_push(tx, samples[to]) {
            return to;
        }
        assert(samples@.subrange(from as int, to as int).push(samples@[to as int])
            =~= samples@.subrange(from as int, to + 1));
        assert(pushed(*tx) =~= pushed(*old(tx)) + samples@.subrange(from as int, to + 1));
        to = to + 1;
    }
    to
}

/// `n` times the same sample.
pub open spec fn silent(silence: u32, n: nat) -> Seq<u32> {
    Seq::new(n, |i: int| silence)
}

/// Takes `frames` whole frames out. Once fewer than two samples are waiting, the rest is silence;
/// nothing is waited for. Returns the samples and how many frames of them are not silence.
pub fn take_frames(rx: &mut rtrb::Consumer<u32>, frames: usize, silence: u32) -> (r: (
    Vec<u32>,
    usize,
))
    requires
        2 * frames <= usize::MAX,
    ensures
        r.1 <= frames,
        r.0@.len() == 2 * frames,
        taken(*final(rx)) == taken(*old(rx)) + r.0@.take(2 * r.1),
        taken(*final(rx)).len() % 2 == taken(*old(rx)).len() % 2,
        r.0@.skip(2 * r.1) == silent(silence, (2 * (frames - r.1)) as nat),
        r.1 < frames ==> waiting(*final(rx)).len() < 2,
        2 * frames <= waiting(*old(rx)).len() ==> r.1 == frames && r.0@ == waiting(*old(rx)).take(
            2 * frames,
        ),
{
    let mut out: Vec<u32> = Vec::new();
    let mut n: usize = 0;
    let ghost w = waiting(*rx);
    assert(taken(*rx) =~= taken(*old(rx)) + out@);
    let mut more = true;
    while n < frames && more
        invariant
            n <= frames,
            2 * frames <= usize::MAX,
            out@.len() == 2 * n,
            w == waiting(*old(rx)),
            taken(*rx) == taken(*old(rx)) + out@,
            !more ==> n < frames && waiting(*rx).len() < 2,
            2 * frames <= w.len() ==> more && out@ == w.take(2 * n) && waiting(*rx).len()
                >= w.len() - 2 * n && waiting(*rx).take(w.len() - 2 * n) == w.skip(2 * n),
        decreases
            frames - n + (if more {
                1int
            } else {
                0int
            }),
    {
        let ghost before = waiting(*rx);
        if consumer_slots(rx) < 2 {
            more = false;
        } else {
            let ghost known = waiting(*rx);
            let ghost start = out@;
            match (consumer_pop(rx), consumer_pop(rx)) {
                (Some(left), Some(right)) => {
                    out.push(left);
                    out.push(right);
                    proof {
                        assert(left == known[0] && right == known[1]);
                        assert(taken(*rx) =~= taken(*old(rx)) + out@);
                        if 2 * frames <= w.len() {
                            let k = w.len() - 2 * n;
                            assert(known.take(before.len() as int) == before);
                            assert forall|i: int| 0 <= i < k implies known[i] == w[2 * n + i] by {
                                assert(known.take(before.len() as int)[i] == known[i]);
                                assert(before.take(k)[i] == w.skip(2 * n)[i]);
                            }
                            assert(out@ =~= w.take(2 * n + 2));
                            assert(waiting(*rx) =~= known.skip(2));
                            assert(waiting(*rx).take(k - 2) =~= w.skip(2 * n + 2));
                        }
                    }
                    n = n + 1;
                },
                _ => {
                    more = false;
                },
            }
        }
    }
    let ghost heard = out@;
    let mut i: usize = n;
    while i < frames
        invariant
            n <= i <= frames,
            2 * frames <= usize::MAX,
            heard.len() == 2 * n,
            out@ == heard + silent(silence, (2 * (i - n)) as nat),
        decreases frames - i,
    {
        out.push(silence);
        out.push(silence);
        i = i + 1;
        assert(out@ =~= heard + silent(silence, (2 * (i - n)) as nat));
    }
    assert(out@.take(2 * n) =~= heard);
    assert(out@.skip(2 * n) =~= silent(silence, (2 * (frames - n)) as nat));
    (out, n)
}

/// Takes out as many whole frames as are waiting and as there are places for.
pub fn read_frames(rx: &mut rtrb::Consumer<u32>, places: usize) -> (r: Vec<u32>)
    ensures
        r@.len() % 2 == 0,
        r@.len() <= places,
        taken(*final(rx)) == taken(*old(rx)) + r@,
        r@.len() + 2 > places || waiting(*final(rx)).len() < 2,
        waiting(*old(rx)).len() >= 2 && places >= 2 ==> r@.len() >= 2,
{
    let n: usize = consumer_slots(rx);
    let frames: usize = audio::whole_frames(n, places);
    let mut out: Vec<u32> = Vec::new();
    assert(taken(*rx) =~= taken(*old(rx)) + out@);
    while out.len() < 2 * frames
        invariant
            2 * frames <= n,
            out@.len() <= 2 * frames,
            waiting(*rx).len() == n - out@.len(),
            taken(*rx) == taken(*old(rx)) + out@,
        decreases 2 * frames - out@.len(),
    {
        let ghost before = out@;
        match consumer_pop(rx) {
            Some(v) => out.push(v),
            None => (),
        }
        assert(out@ =~= before.push(out@.last()));
        assert(taken(*rx) =~= taken(*old(rx)) + out@);
    }
    out
}

/// What a reader of a sound input does next.
#[derive(Clone, Copy, PartialEq, Eq, Debug, Structural)]
pub enum ReadStep {
    /// There are frames to hand on.
    Give,
    /// Nothing came for too long.
    GiveUp,
    /// Nothing came yet.
    Rest,
}

/// What a reader does that got `frames` frames, before or after its time has run out.
pub fn read_step(frames: usize, late: bool) -> (r: ReadStep)
    ensures
        r == (if frames > 0 {
            ReadStep::Give
        } else if late {
            ReadStep::GiveUp
        } else {
            ReadStep::Rest
        }),
{
    if frames > 0 {
        ReadStep::Give
    } else if late {
        ReadStep::GiveUp
    } else {
        ReadStep::Rest
    }
}

} // verus!

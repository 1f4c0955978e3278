//! The decoding state of one image sequence: its frame size, the blank
//! frame, the cache of decoded frames around the one on screen and the
//! frames that are being decoded in the background.
//!
//! Decoding and the background workers stay with the caller; this state
//! machine decides which frames to keep, which to request and which to show.
use std::collections::{HashMap, HashSet};
use vstd::prelude::*;
use crate::grid::zeros;
use crate::transform::{IndexTransform, transformed};
use crate::window::{CACHE_RADIUS, window_indices, window_seq};

verus! {

broadcast use vstd::std_specs::hash::group_hash_axioms;

/// The elements of `s` that are not in `excluded`, each at its first
/// occurrence, in the order of `s`.
pub open spec fn fresh_in_order(s: Seq<usize>, excluded: Set<usize>) -> Seq<usize>
    decreases s.len(),
{
    if s.len() == 0 {
        Seq::empty()
    } else {
        let prev = fresh_in_order(s.drop_last(), excluded);
        let x = s.last();
        if excluded.contains(x) || prev.contains(x) {
            prev
        } else {
            prev.push(x)
        }
    }
}

/// An element is in `fresh_in_order(s, excluded)` exactly when it is in `s`
/// and not excluded.
pub proof fn lemma_fresh_contains(s: Seq<usize>, excluded: Set<usize>, x: usize)
    ensures
        fresh_in_order(s, excluded).contains(x) <==> (s.contains(x) && !excluded.contains(x)),
    decreases s.len(),
{
    if s.len() > 0 {
        let prev = fresh_in_order(s.drop_last(), excluded);
        lemma_fresh_contains(s.drop_last(), excluded, x);
        assert(s =~= s.drop_last().push(s.last()));
        if s.drop_last().contains(x) {
            let j = choose|j: int| 0 <= j < s.drop_last().len() && s.drop_last()[j] == x;
            assert(s[j] == x);
        }
        if s.contains(x) && x != s.last() {
            let j = choose|j: int| 0 <= j < s.len() && s[j] == x;
            assert(j < s.len() - 1);
            assert(s.drop_last()[j] == x);
        }
        if !(excluded.contains(s.last()) || prev.contains(s.last())) {
            assert(prev.push(s.last())[prev.len() as int] == s.last());
            if prev.contains(x) {
                let j = choose|j: int| 0 <= j < prev.len() && prev[j] == x;
                assert(prev.push(s.last())[j] == x);
            }
            if prev.push(s.last()).contains(x) && x != s.last() {
                let j = choose|j: int| 0 <= j < prev.len() + 1 && prev.push(s.last())[j] == x;
                assert(prev[j] == x);
            }
        }
    }
}

/// `fresh_in_order` never lists an element twice.
pub proof fn lemma_fresh_no_duplicates(s: Seq<usize>, excluded: Set<usize>)
    ensures
        fresh_in_order(s, excluded).no_duplicates(),
    decreases s.len(),
{
    if s.len() > 0 {
        let prev = fresh_in_order(s.drop_last(), excluded);
        lemma_fresh_no_duplicates(s.drop_last(), excluded);
        let x = s.last();
        if !(excluded.contains(x) || prev.contains(x)) {
            let p = prev.push(x);
            assert forall|i: int, j: int| 0 <= i < p.len() && 0 <= j < p.len() && i != j implies p[i]
                != p[j] by {
                if i == prev.len() as int && j < prev.len() {
                    assert(prev[j] == p[j]);
                } else if j == prev.len() as int && i < prev.len() {
                    assert(prev[i] == p[i]);
                }
            }
        }
    }
}

/// The frame shown for raw index `step` of a sequence of `n` frames under
/// `transform`: the raw index is clamped to the last frame, mapped, and
/// wrapped into the ring.
pub open spec fn frame_index_for(transform: IndexTransform, n: int, step: int) -> int {
    if n == 0 {
        0
    } else {
        let clamped = if step < n - 1 {
            step
        } else {
            n - 1
        };
        transformed(transform, clamped, n) % n
    }
}

/// The frames after taking in `arrived`, in order: each is cached under its
/// index, a later frame for an index replacing an earlier one.
pub open spec fn received(frames: Map<usize, Vec<u32>>, arrived: Seq<(usize, Vec<u32>)>) -> Map<
    usize,
    Vec<u32>,
>
    decreases arrived.len(),
{
    if arrived.len() == 0 {
        frames
    } else {
        received(frames, arrived.drop_last()).insert(arrived.last().0, arrived.last().1)
    }
}

/// The pending frames after taking in `arrived`: none of those is pending
/// any more.
pub open spec fn received_pending(pending: Set<usize>, arrived: Seq<(usize, Vec<u32>)>) -> Set<usize>
    decreases arrived.len(),
{
    if arrived.len() == 0 {
        pending
    } else {
        received_pending(pending, arrived.drop_last()).remove(arrived.last().0)
    }
}

/// The frames kept around `center`, with `decoded` added for `center` when
/// it was not among them.
pub open spec fn with_center(kept: Map<usize, Vec<u32>>, center: usize, decoded: Vec<u32>) -> Map<
    usize,
    Vec<u32>,
> {
    if kept.contains_key(center) {
        kept
    } else {
        kept.insert(center, decoded)
    }
}

/// Decoding state of one image sequence.
pub struct SequenceState {
    frame_count: usize,
    width: usize,
    height: usize,
    blank: Vec<u32>,
    cache: HashMap<usize, Vec<u32>>,
    in_flight: HashSet<usize>,
    index_transform: IndexTransform,
}

impl SequenceState {
    /// The number of frames in the sequence.
    pub closed spec fn frame_count_spec(&self) -> usize {
        self.frame_count
    }

    /// The frame width in pixels.
    pub closed spec fn width_spec(&self) -> usize {
        self.width
    }

    /// The frame height in pixels.
    pub closed spec fn height_spec(&self) -> usize {
        self.height
    }

    /// The frame shown when the sequence has no frames or no size yet.
    pub closed spec fn blank_spec(&self) -> Seq<u32> {
        self.blank@
    }

    /// The decoded frames, by index.
    pub closed spec fn frames(&self) -> Map<usize, Vec<u32>> {
        self.cache@
    }

    /// The frames being decoded in the background.
    pub closed spec fn pending(&self) -> Set<usize> {
        self.in_flight@
    }

    /// The index mapping in use.
    pub closed spec fn transform_spec(&self) -> IndexTransform {
        self.index_transform
    }

    /// The state is well formed: the frame count fits the signed index type
    /// used by the index mapping.
    pub closed spec fn wf(&self) -> bool {
        self.frame_count <= isize::MAX
    }

    /// A sequence of `frame_count` frames with no frame size yet, nothing
    /// decoded and nothing pending.
    pub fn new(frame_count: usize, index_transform: IndexTransform) -> (s: Self)
        requires
            frame_count <= isize::MAX,
        ensures
            s.wf(),
            s.frame_count_spec() == frame_count,
            s.width_spec() == 0,
            s.height_spec() == 0,
            s.blank_spec() == Seq::<u32>::empty(),
            s.frames() == Map::<usize, Vec<u32>>::empty(),
            s.pending() == Set::<usize>::empty(),
            s.transform_spec() == index_transform,
    {
        SequenceState {
            frame_count,
            width: 0,
            height: 0,
            blank: Vec::new(),
            cache: HashMap::new(),
            in_flight: HashSet::new(),
            index_transform,
        }
    }

    /// The number of frames in the sequence.
    pub fn frame_count(&self) -> (r: usize)
        ensures
            r == self.frame_count_spec(),
    {
        self.frame_count
    }

    /// The frame width in pixels.
    pub fn width(&self) -> (r: usize)
        ensures
            r == self.width_spec(),
    {
        self.width
    }

    /// The frame height in pixels.
    pub fn height(&self) -> (r: usize)
        ensures
            r == self.height_spec(),
    {
        self.height
    }

    /// The blank frame.
    pub fn blank_frame(&self) -> (r: &Vec<u32>)
        ensures
            r@ == self.blank_spec(),
    {
        &self.blank
    }

    /// Replaces the index mapping.
    pub fn set_index_transform(&mut self, f: IndexTransform)
        ensures
            final(self).transform_spec() == f,
            final(self).wf() == old(self).wf(),
            final(self).frame_count_spec() == old(self).frame_count_spec(),
            final(self).width_spec() == old(self).width_spec(),
            final(self).height_spec() == old(self).height_spec(),
            final(self).blank_spec() == old(self).blank_spec(),
            final(self).frames() == old(self).frames(),
            final(self).pending() == old(self).pending(),
    {
        self.index_transform = f;
    }

    /// Sets the frame size: the blank frame becomes `width * height` black
    /// pixels, and every decoded or pending frame, made for the old size, is
    /// forgotten.
    pub fn set_dimensions(&mut self, width: usize, height: usize)
        requires
            width * height <= usize::MAX,
        ensures
            final(self).width_spec() == width,
            final(self).height_spec() == height,
            final(self).blank_spec() == zeros(width * height),
            final(self).frames() == Map::<usize, Vec<u32>>::empty(),
            final(self).pending() == Set::<usize>::empty(),
            final(self).wf() == old(self).wf(),
            final(self).frame_count_spec() == old(self).frame_count_spec(),
            final(self).transform_spec() == old(self).transform_spec(),
    {
        self.width = width;
        self.height = height;
        let blank = vec![0u32; width * height];
        assert(blank@ =~= zeros(width * height));
        self.blank = blank;
        self.cache.clear();
        self.in_flight.clear();
    }

    /// The frame shown for raw index `step`: the raw index is clamped to
    /// the last frame, mapped by the index transform, and wrapped into the
    /// ring of frames. 0 for an empty sequence.
    pub fn frame_index(&self, step: usize) -> (r: usize)
        requires
            self.wf(),
        ensures
            r == frame_index_for(self.transform_spec(), self.frame_count_spec() as int, step as int),
            self.frame_count_spec() > 0 ==> r < self.frame_count_spec(),
    {
        let n = self.frame_count;
        if n == 0 {
            return 0;
        }
        let clamped = if step < n - 1 {
            step
        } else {
            n - 1
        };
        let v = self.index_transform.apply(clamped as isize, n as isize);
        let r = v.checked_rem_euclid(n as isize).unwrap();
        r as usize
    }

    /// Takes in a decoded frame: it is cached, and no longer pending.
    pub fn accept(&mut self, index: usize, frame: Vec<u32>)
        ensures
            final(self).frames() == old(self).frames().insert(index, frame),
            final(self).pending() == old(self).pending().remove(index),
            final(self).wf() == old(self).wf(),
            final(self).frame_count_spec() == old(self).frame_count_spec(),
            final(self).width_spec() == old(self).width_spec(),
            final(self).height_spec() == old(self).height_spec(),
            final(self).blank_spec() == old(self).blank_spec(),
            final(self).transform_spec() == old(self).transform_spec(),
    {
        self.in_flight.remove(&index);
        self.cache.insert(index, frame);
    }

    /// Whether frame `index` is decoded.
    pub fn is_cached(&self, index: usize) -> (r: bool)
        ensures
            r == self.frames().contains_key(index),
    {
        self.cache.contains_key(&index)
    }

    /// The decoded frame `index`.
    pub fn frame(&self, index: usize) -> (r: &Vec<u32>)
        requires
            self.frames().contains_key(index),
        ensures
            *r == self.frames()[index],
    {
        self.cache.get(&index).unwrap()
    }

    /// Takes in the frames decoded in the background, in the order they
    /// arrived: each is cached, and no longer pending.
    pub fn receive(&mut self, arrived: Vec<(usize, Vec<u32>)>)
        ensures
            final(self).frames() == received(old(self).frames(), arrived@),
            final(self).pending() == received_pending(old(self).pending(), arrived@),
            final(self).wf() == old(self).wf(),
            final(self).frame_count_spec() == old(self).frame_count_spec(),
            final(self).width_spec() == old(self).width_spec(),
            final(self).height_spec() == old(self).height_spec(),
            final(self).blank_spec() == old(self).blank_spec(),
            final(self).transform_spec() == old(self).transform_spec(),
    {
        let ghost a = arrived@;
        let ghost f0 = self.frames();
        let ghost p0 = self.pending();
        let total = arrived.len();
        let mut rest = arrived;
        let mut k: usize = 0;
        while rest.len() > 0
            invariant
                total == a.len(),
                k + rest@.len() == a.len(),
                rest@ == a.skip(k as int),
                self.frames() == received(f0, a.take(k as int)),
                self.pending() == received_pending(p0, a.take(k as int)),
                self.wf() == old(self).wf(),
                self.frame_count_spec() == old(self).frame_count_spec(),
                self.width_spec() == old(self).width_spec(),
                self.height_spec() == old(self).height_spec(),
                self.blank_spec() == old(self).blank_spec(),
                self.transform_spec() == old(self).transform_spec(),
            decreases rest@.len(),
        {
            let (index, frame) = rest.remove(0);
            proof {
                assert(a.take(k + 1).drop_last() =~= a.take(k as int));
                assert(a.take(k + 1).last() == a[k as int]);
                assert(a.skip(k + 1) =~= a.skip(k as int).remove(0));
            }
            self.accept(index, frame);
            k = k + 1;
        }
        assert(a.take(k as int) =~= a);
    }

    /// Whether only the blank frame can be shown: the sequence has no
    /// frames, or no frame size yet.
    pub fn shows_blank(&self) -> (r: bool)
        ensures
            r == (self.frame_count_spec() == 0 || self.width_spec() == 0),
    {
        self.frame_count == 0 || self.width == 0
    }

    /// The frame `center`, decoded by `decode` and taken in first when it is
    /// not cached.
    pub fn show_center<D: FnOnce(usize) -> Vec<u32>>(&mut self, center: usize, decode: D) -> (r:
        &Vec<u32>)
        requires
            call_requires(decode, (center,)),
        ensures
            old(self).frames().contains_key(center) ==> final(self).frames() == old(self).frames()
                && final(self).pending() == old(self).pending(),
            !old(self).frames().contains_key(center) ==> exists|v: Vec<u32>|
                call_ensures(decode, (center,), v) && final(self).frames() == old(self).frames().insert(
                    center,
                    v,
                ) && final(self).pending() == old(self).pending().remove(center),
            final(self).frames().contains_key(center),
            *r == final(self).frames()[center],
            final(self).wf() == old(self).wf(),
            final(self).frame_count_spec() == old(self).frame_count_spec(),
            final(self).width_spec() == old(self).width_spec(),
            final(self).height_spec() == old(self).height_spec(),
            final(self).blank_spec() == old(self).blank_spec(),
            final(self).transform_spec() == old(self).transform_spec(),
    {
        if !self.cache.contains_key(&center) {
            let frame = decode(center);
            self.accept(center, frame);
        }
        self.cache.get(&center).unwrap()
    }

    /// Plans the decoding around frame `center`: decoded and pending frames
    /// outside its window are forgotten, and every frame of the window that
    /// is neither decoded nor pending becomes pending. Returns those newly
    /// pending frames, nearest first, for the caller to decode.
    pub fn plan(&mut self, center: usize) -> (r: Vec<usize>)
        requires
            old(self).wf(),
            old(self).frame_count_spec() > 0,
            center + CACHE_RADIUS <= isize::MAX,
        ensures
            ({
                let w = window_seq(center as int, old(self).frame_count_spec() as int);
                let kept = old(self).frames().restrict(w.to_set());
                let still = old(self).pending().intersect(w.to_set());
                &&& final(self).frames() == kept
                &&& final(self).pending() == still.union(w.to_set().difference(kept.dom()))
                &&& r@ == fresh_in_order(w, kept.dom().union(still))
            }),
            final(self).wf(),
            final(self).frame_count_spec() == old(self).frame_count_spec(),
            final(self).width_spec() == old(self).width_spec(),
            final(self).height_spec() == old(self).height_spec(),
            final(self).blank_spec() == old(self).blank_spec(),
            final(self).transform_spec() == old(self).transform_spec(),
    {
        let n = self.frame_count;
        let window = window_indices(center, n);
        let ghost w = window@;
        let ghost old_frames = self.cache@;
        let ghost old_pending = self.in_flight@;
        let len = window.len();
        let mut kept: HashMap<usize, Vec<u32>> = HashMap::new();
        let mut still: HashSet<usize> = HashSet::new();
        let mut k: usize = 0;
        while k < len
            invariant
                len == w.len(),
                window@ == w,
                0 <= k <= len,
                kept@ == old_frames.restrict(w.take(k as int).to_set()),
                self.cache@ == old_frames.remove_keys(w.take(k as int).to_set()),
                still@ == old_pending.intersect(w.take(k as int).to_set()),
                self.in_flight@ == old_pending,
                self.frame_count == n,
                n > 0,
                n <= isize::MAX,
                self.width == old(self).width,
                self.height == old(self).height,
                self.blank == old(self).blank,
                self.index_transform == old(self).index_transform,
            decreases len - k,
        {
            let wi = window[k];
            assert(w.take(k + 1) =~= w.take(k as int).push(wi));
            assert(w.take(k + 1).to_set() =~= w.take(k as int).to_set().insert(wi)) by {
                w.take(k as int).lemma_push_to_set_commute(wi);
            }
            match self.cache.remove(&wi) {
                Some(frame) => {
                    kept.insert(wi, frame);
                },
                None => {},
            }
            if self.in_flight.contains(&wi) {
                still.insert(wi);
            }
            proof {
                let s0 = w.take(k as int).to_set();
                let s1 = s0.insert(wi);
                assert(kept@ =~= old_frames.restrict(s1));
                assert(self.cache@ =~= old_frames.remove_keys(s1));
                assert(still@ =~= old_pending.intersect(s1));
            }
            k = k + 1;
        }
        assert(w.take(len as int) =~= w);
        self.cache = kept;
        self.in_flight = still;
        let ghost kept_dom = self.cache@.dom();
        let ghost still0 = self.in_flight@;
        let mut requests: Vec<usize> = Vec::new();
        let mut k: usize = 0;
        while k < len
            invariant
                len == w.len(),
                window@ == w,
                0 <= k <= len,
                self.cache@.dom() == kept_dom,
                self.cache@ == old_frames.restrict(w.to_set()),
                still0 == old_pending.intersect(w.to_set()),
                self.in_flight@ == still0.union(w.take(k as int).to_set().difference(kept_dom)),
                requests@ == fresh_in_order(w.take(k as int), kept_dom.union(still0)),
                self.frame_count == n,
                n <= isize::MAX,
                self.width == old(self).width,
                self.height == old(self).height,
                self.blank == old(self).blank,
                self.index_transform == old(self).index_transform,
            decreases len - k,
        {
            let wi = window[k];
            let ghost prefix = w.take(k as int);
            assert(w.take(k + 1) =~= prefix.push(wi));
            assert(w.take(k + 1).drop_last() =~= prefix);
            assert(w.take(k + 1).to_set() =~= prefix.to_set().insert(wi)) by {
                prefix.lemma_push_to_set_commute(wi);
            }
            proof {
                lemma_fresh_contains(prefix, kept_dom.union(still0), wi);
            }
            if self.cache.contains_key(&wi) {
                assert(self.in_flight@ =~= still0.union(
                    w.take(k + 1).to_set().difference(kept_dom),
                ));
            } else {
                let fresh = self.in_flight.insert(wi);
                if fresh {
                    requests.push(wi);
                } else {
                    proof {
                        if !still0.contains(wi) {
                            assert(prefix.to_set().contains(wi));
                            assert(prefix.contains(wi));
                        }
                    }
                }
                proof {
                    if !fresh && !still0.contains(wi) {
                        assert(prefix.to_set().contains(wi));
                    }
                    if fresh {
                        assert(!prefix.to_set().contains(wi));
                        assert(!prefix.contains(wi));
                    }
                }
                assert(self.in_flight@ =~= still0.union(
                    w.take(k + 1).to_set().difference(kept_dom),
                ));
            }
            k = k + 1;
        }
        assert(w.take(len as int) =~= w);
        requests
    }
}

/// After planning around a frame, every frame of its window is decoded or
/// pending, and nothing outside the window is.
pub proof fn lemma_plan_covers_window(
    w: Seq<usize>,
    frames: Map<usize, Vec<u32>>,
    pending: Set<usize>,
    x: usize,
)
    ensures
        ({
            let kept = frames.restrict(w.to_set());
            let new_pending = pending.intersect(w.to_set()).union(
                w.to_set().difference(kept.dom()),
            );
            &&& w.contains(x) ==> kept.contains_key(x) || new_pending.contains(x)
            &&& !w.contains(x) ==> !kept.contains_key(x) && !new_pending.contains(x)
        }),
{
}

/// The frames requested by a plan are exactly the window's frames that were
/// neither decoded nor pending, each requested once.
pub proof fn lemma_plan_requests(w: Seq<usize>, excluded: Set<usize>, x: usize)
    ensures
        fresh_in_order(w, excluded).no_duplicates(),
        fresh_in_order(w, excluded).contains(x) <==> (w.contains(x) && !excluded.contains(x)),
{
    lemma_fresh_no_duplicates(w, excluded);
    lemma_fresh_contains(w, excluded, x);
}

/// A frame read back after it was taken in is the frame that was taken in.
pub proof fn lemma_accept_then_read(frames: Map<usize, Vec<u32>>, index: usize, frame: Vec<u32>)
    ensures
        frames.insert(index, frame).contains_key(index),
        frames.insert(index, frame)[index] == frame,
{
}

/// The frame shown always lies in the sequence; with the identity mapping
/// it is the raw index clamped to the last frame.
pub proof fn lemma_frame_index_in_range(transform: IndexTransform, n: int, step: int)
    requires
        n > 0,
        step >= 0,
    ensures
        0 <= frame_index_for(transform, n, step) < n,
        transform == IndexTransform::Identity ==> frame_index_for(transform, n, step) == if step
            < n - 1 {
            step
        } else {
            n - 1
        },
{
    if transform == IndexTransform::Identity {
        let clamped = if step < n - 1 {
            step
        } else {
            n - 1
        };
        vstd::arithmetic::div_mod::lemma_small_mod(clamped as nat, n as nat);
    }
}

/// Every decoded frame is `decode` of its index, `decode` giving the frame
/// decoded at the current size for each index of the sequence.
pub open spec fn holds_decodes(frames: Map<usize, Vec<u32>>, decode: spec_fn(usize) -> Seq<u32>) -> bool {
    forall|i: usize| frames.contains_key(i) ==> #[trigger] frames[i]@ == decode(i)
}

/// The cache never changes the frame shown. While every frame taken in is
/// the decode of its index, the cache holds only decodes: it does after a
/// size change (`set_dimensions` empties it), after `accept` of a decode,
/// and after `plan` (which keeps part of it). So the frame read for an
/// index (`frame`, whose result is `frames()[index]`) is that index's decode.
pub proof fn lemma_cache_holds_decodes(
    frames: Map<usize, Vec<u32>>,
    decode: spec_fn(usize) -> Seq<u32>,
    w: Seq<usize>,
    index: usize,
    frame: Vec<u32>,
    shown: usize,
)
    requires
        holds_decodes(frames, decode),
    ensures
        holds_decodes(Map::<usize, Vec<u32>>::empty(), decode),
        frame@ == decode(index) ==> holds_decodes(frames.insert(index, frame), decode),
        holds_decodes(frames.restrict(w.to_set()), decode),
        frames.contains_key(shown) ==> frames[shown]@ == decode(shown),
{
}

/// Every frame of `arrived` is the decode of its index.
pub open spec fn all_decodes(arrived: Seq<(usize, Vec<u32>)>, decode: spec_fn(usize) -> Seq<u32>) -> bool {
    forall|k: int| 0 <= k < arrived.len() ==> #[trigger] arrived[k].1@ == decode(arrived[k].0)
}

proof fn lemma_received_holds_decodes(
    frames: Map<usize, Vec<u32>>,
    decode: spec_fn(usize) -> Seq<u32>,
    arrived: Seq<(usize, Vec<u32>)>,
)
    requires
        holds_decodes(frames, decode),
        all_decodes(arrived, decode),
    ensures
        holds_decodes(received(frames, arrived), decode),
    decreases arrived.len(),
{
    if arrived.len() > 0 {
        let rest = arrived.drop_last();
        assert(all_decodes(rest, decode)) by {
            assert forall|k: int| 0 <= k < rest.len() implies #[trigger] rest[k].1@ == decode(rest[k].0) by {
                assert(rest[k] == arrived[k]);
            }
        }
        lemma_received_holds_decodes(frames, decode, rest);
        assert(arrived.last() == arrived[arrived.len() - 1]);
    }
}

/// One step of showing frame `center` of an `n`-frame sequence never
/// changes the frame shown: when the cache holds only decodes, the frames
/// taken in from the background (`receive`) are decodes, and the frame
/// decoded for `center` when it is missing after planning (`show_center`)
/// is its decode, then after `receive`, `plan` and `show_center` the cache
/// holds `center`, its frame is the decode of `center`, and the cache still
/// holds only decodes.
pub proof fn lemma_step_shows_decode(
    frames: Map<usize, Vec<u32>>,
    decode: spec_fn(usize) -> Seq<u32>,
    arrived: Seq<(usize, Vec<u32>)>,
    center: usize,
    n: int,
    decoded: Vec<u32>,
)
    requires
        holds_decodes(frames, decode),
        all_decodes(arrived, decode),
        !received(frames, arrived).restrict(window_seq(center as int, n).to_set()).contains_key(center)
            ==> decoded@ == decode(center),
    ensures
        ({
            let kept = received(frames, arrived).restrict(window_seq(center as int, n).to_set());
            let shown = with_center(kept, center, decoded);
            &&& shown.contains_key(center)
            &&& shown[center]@ == decode(center)
            &&& holds_decodes(shown, decode)
        }),
{
    lemma_received_holds_decodes(frames, decode, arrived);
    let kept = received(frames, arrived).restrict(window_seq(center as int, n).to_set());
    assert(holds_decodes(kept, decode));
}

/// One step of showing frames, as the frame cache sees it.
pub enum CacheStep {
    /// Frames decoded in the background are taken in (`receive`).
    Receive(Seq<(usize, Vec<u32>)>),
    /// The decoding is planned around a frame (`plan`).
    Plan(usize),
    /// A frame is shown (`show_center`), with the frame decoded for it when
    /// it was not cached.
    Show(usize, Vec<u32>),
}

/// The cached frames after one step, for a sequence of `n` frames: what
/// `receive`, `plan` and `show_center` state of them.
pub open spec fn after_step(frames: Map<usize, Vec<u32>>, step: CacheStep, n: int) -> Map<
    usize,
    Vec<u32>,
> {
    match step {
        CacheStep::Receive(arrived) => received(frames, arrived),
        CacheStep::Plan(center) => frames.restrict(window_seq(center as int, n).to_set()),
        CacheStep::Show(center, decoded) => with_center(frames, center, decoded),
    }
}

/// The cached frames after a run of steps.
pub open spec fn after_steps(frames: Map<usize, Vec<u32>>, steps: Seq<CacheStep>, n: int) -> Map<
    usize,
    Vec<u32>,
>
    decreases steps.len(),
{
    if steps.len() == 0 {
        frames
    } else {
        after_step(after_steps(frames, steps.drop_last(), n), steps.last(), n)
    }
}

/// A step gives the cache only decodes: frames taken in are decodes of
/// their indices, and a frame decoded for a shown frame that was not cached
/// is its decode.
pub open spec fn decoding_step(
    frames: Map<usize, Vec<u32>>,
    step: CacheStep,
    decode: spec_fn(usize) -> Seq<u32>,
) -> bool {
    match step {
        CacheStep::Receive(arrived) => all_decodes(arrived, decode),
        CacheStep::Plan(_) => true,
        CacheStep::Show(center, decoded) => !frames.contains_key(center) ==> decoded@ == decode(
            center,
        ),
    }
}

/// Every step of a run gives the cache only decodes.
pub open spec fn decoding_run(
    frames: Map<usize, Vec<u32>>,
    steps: Seq<CacheStep>,
    n: int,
    decode: spec_fn(usize) -> Seq<u32>,
) -> bool
    decreases steps.len(),
{
    steps.len() == 0 || (decoding_run(frames, steps.drop_last(), n, decode) && decoding_step(
        after_steps(frames, steps.drop_last(), n),
        steps.last(),
        decode,
    ))
}

proof fn lemma_run_holds_decodes(
    frames: Map<usize, Vec<u32>>,
    steps: Seq<CacheStep>,
    n: int,
    decode: spec_fn(usize) -> Seq<u32>,
)
    requires
        holds_decodes(frames, decode),
        decoding_run(frames, steps, n, decode),
    ensures
        holds_decodes(after_steps(frames, steps, n), decode),
    decreases steps.len(),
{
    if steps.len() > 0 {
        lemma_run_holds_decodes(frames, steps.drop_last(), n, decode);
        let before = after_steps(frames, steps.drop_last(), n);
        match steps.last() {
            CacheStep::Receive(arrived) => {
                lemma_received_holds_decodes(before, decode, arrived);
            },
            CacheStep::Plan(center) => {},
            CacheStep::Show(center, decoded) => {},
        }
    }
}

proof fn lemma_run_prefix(
    frames: Map<usize, Vec<u32>>,
    steps: Seq<CacheStep>,
    n: int,
    decode: spec_fn(usize) -> Seq<u32>,
    k: int,
)
    requires
        decoding_run(frames, steps, n, decode),
        0 <= k <= steps.len(),
    ensures
        decoding_run(frames, steps.take(k), n, decode),
    decreases steps.len(),
{
    if k == steps.len() {
        assert(steps.take(k) =~= steps);
    } else {
        lemma_run_prefix(frames, steps.drop_last(), n, decode, k);
        assert(steps.drop_last().take(k) =~= steps.take(k));
    }
}

/// The look-ahead cache never changes the frame shown, over any run. Start
/// from an empty cache (as `new` and `set_dimensions` leave it) and take
/// any run of `receive`, `plan` and `show_center` steps in which every
/// frame taken in is the decode of its index and every frame decoded for a
/// shown frame that was not cached is its decode. Then the cache holds only
/// decodes after the run, and every step that shows frame `c` shows the
/// decode of `c`.
pub proof fn lemma_run_shows_decodes(steps: Seq<CacheStep>, n: int, decode: spec_fn(usize) -> Seq<u32>)
    requires
        decoding_run(Map::<usize, Vec<u32>>::empty(), steps, n, decode),
    ensures
        holds_decodes(after_steps(Map::<usize, Vec<u32>>::empty(), steps, n), decode),
        forall|k: int|
            0 <= k < steps.len() && #[trigger] steps[k] is Show ==> {
                let shown = after_steps(Map::<usize, Vec<u32>>::empty(), steps.take(k + 1), n);
                &&& shown.contains_key(steps[k]->0)
                &&& shown[steps[k]->0]@ == decode(steps[k]->0)
            },
{
    let empty = Map::<usize, Vec<u32>>::empty();
    lemma_run_holds_decodes(empty, steps, n, decode);
    assert forall|k: int| 0 <= k < steps.len() && #[trigger] steps[k] is Show implies {
        let shown = after_steps(empty, steps.take(k + 1), n);
        &&& shown.contains_key(steps[k]->0)
        &&& shown[steps[k]->0]@ == decode(steps[k]->0)
    } by {
        lemma_run_prefix(empty, steps, n, decode, k + 1);
        let pre = steps.take(k + 1);
        assert(pre.drop_last() =~= steps.take(k));
        assert(pre.last() == steps[k]);
        lemma_run_prefix(empty, steps, n, decode, k);
        lemma_run_holds_decodes(empty, steps.take(k), n, decode);
    }
}

} // verus!

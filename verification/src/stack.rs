//! The fragment stack: which names enclose the cursor during a traversal.
//!
//! Frames of names opened together are pushed and popped as tags go by;
//! the derived active set is the union of all frames plus the root name
//! (the empty string), which is permanently active.  A name may not be
//! opened while it is already active, the stack must be empty at end of
//! input, and a pop on an empty stack is an error.

use vstd::prelude::*;
use crate::error::{Error, SpecError};
use crate::names::{contains_str, dedup_keep_first, sorted_fragments, spec_sorted_join};
use crate::text::str_views;

verus! {

/// A list of names without repetition.
pub open spec fn no_dup_names(s: Seq<Seq<char>>) -> bool {
    forall|i: int, j: int| 0 <= i < j < s.len() ==> s[i] != s[j]
}

/// The active set over a stack of frames: the root name plus every name
/// of every frame.
pub open spec fn active_of(frames: Seq<Seq<Seq<char>>>) -> Set<Seq<char>>
    decreases frames.len(),
{
    if frames.len() == 0 {
        Set::<Seq<char>>::empty().insert(Seq::<char>::empty())
    } else {
        active_of(frames.drop_last()).union(frames.last().to_set())
    }
}

/// A name is active exactly when it is the root name or stands in some
/// frame.
pub proof fn lemma_active_membership(frames: Seq<Seq<Seq<char>>>, n: Seq<char>)
    ensures
        active_of(frames).contains(n) <==> (n == Seq::<char>::empty() || exists|k: int|
            0 <= k < frames.len() && (#[trigger] frames[k]).contains(n)),
    decreases frames.len(),
{
    if frames.len() > 0 {
        lemma_active_membership(frames.drop_last(), n);
        let d = frames.drop_last();
        if active_of(frames).contains(n) && n != Seq::<char>::empty() {
            if active_of(d).contains(n) {
                let k = choose|k: int| 0 <= k < d.len() && (#[trigger] d[k]).contains(n);
                assert(frames[k].contains(n));
            } else {
                assert(frames[frames.len() - 1].contains(n));
            }
        }
        if n != Seq::<char>::empty() && exists|k: int|
            0 <= k < frames.len() && (#[trigger] frames[k]).contains(n) {
            let k = choose|k: int| 0 <= k < frames.len() && (#[trigger] frames[k]).contains(n);
            if k < frames.len() - 1 {
                assert(d[k].contains(n));
            }
        }
    }
}

/// The root name is active in every state.
pub proof fn lemma_active_root(frames: Seq<Seq<Seq<char>>>)
    ensures
        active_of(frames).contains(Seq::<char>::empty()),
    decreases frames.len(),
{
    if frames.len() > 0 {
        lemma_active_root(frames.drop_last());
    }
}

/// Well-formedness of a stack of frames: within a frame names do not
/// repeat, no frame holds the root name, and frames are pairwise
/// disjoint.
pub open spec fn frames_wf(fv: Seq<Seq<Seq<char>>>) -> bool {
    &&& forall|k: int| 0 <= k < fv.len() ==> no_dup_names(#[trigger] fv[k])
    &&& forall|k: int| 0 <= k < fv.len() ==> !(#[trigger] fv[k]).contains(Seq::<char>::empty())
    &&& forall|k1: int, k2: int|
        0 <= k1 < k2 < fv.len() ==> (#[trigger] fv[k1]).disjoint(#[trigger] fv[k2])
}

/// The names of `names` already present in `act`, in order.
pub open spec fn collisions_of(names: Seq<Seq<char>>, act: Set<Seq<char>>) -> Seq<Seq<char>>
    decreases names.len(),
{
    if names.len() == 0 {
        Seq::empty()
    } else {
        let d = collisions_of(names.drop_last(), act);
        if act.contains(names.last()) {
            d.push(names.last())
        } else {
            d
        }
    }
}

/// There are no collisions exactly when no name is already active.
pub proof fn lemma_collisions_empty(names: Seq<Seq<char>>, act: Set<Seq<char>>)
    ensures
        collisions_of(names, act).len() == 0 <==> (forall|i: int|
            0 <= i < names.len() ==> !act.contains(#[trigger] names[i])),
    decreases names.len(),
{
    if names.len() > 0 {
        lemma_collisions_empty(names.drop_last(), act);
        let d = names.drop_last();
        assert(forall|i: int| 0 <= i < d.len() ==> d[i] == names[i]);
    }
}

/// Opening a frame: fails with the sorted collisions if any name is
/// already active, otherwise pushes the whole frame.
pub open spec fn spec_push(fv: Seq<Seq<Seq<char>>>, names: Seq<Seq<char>>) -> Result<
    Seq<Seq<Seq<char>>>,
    SpecError,
> {
    let collisions = collisions_of(names, active_of(fv));
    if collisions.len() > 0 {
        Err(SpecError::ReentrantFragment(spec_sorted_join(collisions)))
    } else {
        Ok(fv.push(names))
    }
}

/// Closing a frame: fails on an empty stack, otherwise drops the
/// innermost frame and reports the active set as it was before the pop.
pub open spec fn spec_pop(fv: Seq<Seq<Seq<char>>>) -> Result<
    (Seq<Seq<Seq<char>>>, Set<Seq<char>>),
    SpecError,
> {
    if fv.len() == 0 {
        Err(SpecError::UnbalancedEndTag)
    } else {
        Ok((fv.drop_last(), active_of(fv)))
    }
}

/// All names of all frames, innermost last.
pub open spec fn flatten_frames(fv: Seq<Seq<Seq<char>>>) -> Seq<Seq<char>>
    decreases fv.len(),
{
    if fv.len() == 0 {
        Seq::empty()
    } else {
        flatten_frames(fv.drop_last()) + fv.last()
    }
}

/// End of input: fails with the sorted still-open names unless the stack
/// is empty.
pub open spec fn spec_done(fv: Seq<Seq<Seq<char>>>) -> Result<(), SpecError> {
    if fv.len() == 0 {
        Ok(())
    } else {
        Err(SpecError::UnclosedTag(spec_sorted_join(dedup_keep_first(flatten_frames(fv)))))
    }
}

/// Tracks the currently active fragment names as a stack of frames, with
/// a cached flat list of the active names.
pub struct FragmentStack<'a> {
    frames: Vec<Vec<&'a str>>,
    active: Vec<&'a str>,
}

impl<'a> FragmentStack<'a> {
    /// The stack of frames, as character sequences.
    pub closed spec fn frames_view(self) -> Seq<Seq<Seq<char>>> {
        self.frames@.map_values(|f: Vec<&'a str>| str_views(f@))
    }

    /// The cached active list mirrors the active set of the frames.
    pub closed spec fn wf(self) -> bool {
        &&& frames_wf(self.frames_view())
        &&& no_dup_names(str_views(self.active@))
        &&& str_views(self.active@).to_set() == active_of(self.frames_view())
    }

    /// A fresh stack: no frames, only the root name active.
    pub fn new() -> (s: Self)
        ensures
            s.wf(),
            s.frames_view() == Seq::<Seq<Seq<char>>>::empty(),
    {
        let mut active: Vec<&'a str> = Vec::new();
        active.push("");
        let s = FragmentStack { frames: Vec::new(), active };
        proof {
            reveal_strlit("");
            let e = Seq::<char>::empty();
            assert(s.frames_view() =~= Seq::<Seq<Seq<char>>>::empty());
            assert(s.active@.len() == 1);
            assert(s.active@[0]@ =~= e);
            assert(str_views(s.active@)[0] == s.active@[0]@);
            assert(str_views(s.active@) =~= seq![e]);
            assert(seq![e][0] == e);
            assert(seq![e].contains(e));
            assert forall|x: Seq<char>| #[trigger] seq![e].contains(x) implies x == e by {
                let i = choose|i: int| 0 <= i < seq![e].len() && seq![e][i] == x;
            }
            assert(str_views(s.active@).to_set() =~= active_of(s.frames_view()));
        }
        s
    }

    /// Whether `fragment` is currently active.
    pub fn is_active(&self, fragment: &str) -> (r: bool)
        requires
            self.wf(),
        ensures
            r == active_of(self.frames_view()).contains(fragment@),
    {
        contains_str(&self.active, fragment)
    }

    /// The active names, without repetition.
    pub fn active_names(&self) -> (r: &Vec<&'a str>)
        requires
            self.wf(),
        ensures
            str_views(r@).to_set() == active_of(self.frames_view()),
            no_dup_names(str_views(r@)),
    {
        &self.active
    }

    /// Open the names of `fragments` together as one frame, as
    /// `spec_push` describes.
    pub fn push(&mut self, fragments: Vec<&'a str>) -> (r: Result<(), Error>)
        requires
            old(self).wf(),
            no_dup_names(str_views(fragments@)),
        ensures
            match r {
                Ok(_) => {
                    &&& spec_push(old(self).frames_view(), str_views(fragments@)) == Ok::<
                        _,
                        SpecError,
                    >(final(self).frames_view())
                    &&& final(self).wf()
                },
                Err(e) => {
                    &&& spec_push(old(self).frames_view(), str_views(fragments@)) == Err::<
                        Seq<Seq<Seq<char>>>,
                        _,
                    >(e@)
                    &&& *final(self) == *old(self)
                },
            },
    {
        let ghost nv = str_views(fragments@);
        let ghost act = active_of(self.frames_view());
        let mut collisions: Vec<&'a str> = Vec::new();
        let mut i: usize = 0;
        proof {
            assert(nv.take(0) =~= Seq::<Seq<char>>::empty());
            assert(str_views(collisions@) =~= collisions_of(nv.take(0), act));
        }
        while i < fragments.len()
            invariant
                self == old(self),
                self.wf(),
                nv == str_views(fragments@),
                act == active_of(self.frames_view()),
                i <= fragments@.len(),
                str_views(collisions@) == collisions_of(nv.take(i as int), act),
            decreases fragments@.len() - i,
        {
            let x = fragments[i];
            proof {
                assert(nv.take(i + 1).drop_last() =~= nv.take(i as int));
                assert(nv.take(i + 1).last() == x@);
            }
            if contains_str(&self.active, x) {
                proof {
                    assert(str_views(collisions@.push(x)) =~= str_views(collisions@).push(x@));
                }
                collisions.push(x);
            }
            i += 1;
        }
        proof {
            assert(nv.take(fragments@.len() as int) =~= nv);
        }
        if collisions.len() > 0 {
            return Err(Error::ReentrantFragment(sorted_fragments(&collisions)));
        }
        proof {
            lemma_collisions_empty(nv, act);
        }
        let ghost old_active = self.active@;
        let ghost old_fv = self.frames_view();
        let mut j: usize = 0;
        while j < fragments.len()
            invariant
                j <= fragments@.len(),
                self.frames == old(self).frames,
                self.active@ == old_active + fragments@.take(j as int),
                nv == str_views(fragments@),
                old_active == old(self).active@,
            decreases fragments@.len() - j,
        {
            proof {
                assert((old_active + fragments@.take(j as int)).push(fragments@[j as int])
                    =~= old_active + fragments@.take(j + 1));
            }
            let x = fragments[j];
            self.active.push(x);
            j += 1;
        }
        proof {
            assert(self.active@ =~= old_active + fragments@);
        }
        self.frames.push(fragments);
        proof {
            let new_fv = self.frames_view();
            assert(new_fv =~= old_fv.push(nv));
            assert(new_fv.drop_last() =~= old_fv);
            // the new active list is the old one followed by the new names
            assert(str_views(self.active@) =~= str_views(old(self).active@) + nv);
            let oav = str_views(old(self).active@);
            // no new name was active before
            assert(forall|t: int| 0 <= t < nv.len() ==> !act.contains(#[trigger] nv[t]));
            assert(forall|t: int| 0 <= t < nv.len() ==> !oav.contains(#[trigger] nv[t]));
            // distinctness of the concatenation
            assert forall|p: int, q: int|
                0 <= p < q < (oav + nv).len() implies (oav + nv)[p] != (oav + nv)[q] by {
                if q < oav.len() {
                } else if p >= oav.len() {
                } else {
                    assert((oav + nv)[p] == oav[p]);
                    assert((oav + nv)[q] == nv[q - oav.len()]);
                    if oav[p] == nv[q - oav.len()] {
                        assert(oav.contains(nv[q - oav.len()]));
                    }
                }
            }
            // the active set grows by exactly the new names
            assert forall|x: Seq<char>| #[trigger]
                (oav + nv).to_set().contains(x) implies active_of(new_fv).contains(x) by {
                let t = choose|t: int| 0 <= t < (oav + nv).len() && (oav + nv)[t] == x;
                if t < oav.len() {
                    assert(oav.contains(x));
                } else {
                    assert(nv.contains(x));
                    assert(nv.to_set().contains(x));
                }
            }
            assert forall|x: Seq<char>| #[trigger]
                active_of(new_fv).contains(x) implies (oav + nv).to_set().contains(x) by {
                if act.contains(x) {
                    let t = choose|t: int| 0 <= t < oav.len() && oav[t] == x;
                    assert((oav + nv)[t] == x);
                } else {
                    assert(nv.to_set().contains(x));
                    let t = choose|t: int| 0 <= t < nv.len() && nv[t] == x;
                    assert((oav + nv)[oav.len() + t] == x);
                }
            }
            assert(str_views(self.active@).to_set() =~= active_of(new_fv));
            // frame well-formedness carries over to the pushed frame
            assert forall|k: int| 0 <= k < new_fv.len() implies no_dup_names(
                #[trigger] new_fv[k],
            ) by {
                if k < old_fv.len() {
                    assert(new_fv[k] == old_fv[k]);
                }
            }
            assert forall|k: int| 0 <= k < new_fv.len() implies !(#[trigger] new_fv[k]).contains(
                Seq::<char>::empty(),
            ) by {
                if k < old_fv.len() {
                    assert(new_fv[k] == old_fv[k]);
                } else {
                    if nv.contains(Seq::<char>::empty()) {
                        lemma_active_membership(old_fv, Seq::<char>::empty());
                        let t = choose|t: int| 0 <= t < nv.len() && nv[t] == Seq::<char>::empty();
                        assert(!act.contains(nv[t]));
                    }
                }
            }
            assert forall|k1: int, k2: int| 0 <= k1 < k2 < new_fv.len() implies (
            #[trigger] new_fv[k1]).disjoint(#[trigger] new_fv[k2]) by {
                if k2 < old_fv.len() {
                    assert(new_fv[k1] == old_fv[k1] && new_fv[k2] == old_fv[k2]);
                } else {
                    assert(new_fv[k1] == old_fv[k1]);
                    assert(new_fv[k2] == nv);
                    assert forall|p: int, q: int|
                        0 <= p < old_fv[k1].len() && 0 <= q < nv.len() implies old_fv[k1][p]
                        != nv[q] by {
                        if old_fv[k1][p] == nv[q] {
                            lemma_active_membership(old_fv, nv[q]);
                            assert(old_fv[k1].contains(nv[q]));
                            assert(!act.contains(nv[q]));
                        }
                    }
                }
            }
        }
        Ok(())
    }

    /// Close the innermost frame, as `spec_pop` describes; the returned
    /// list holds the names active before the pop.
    pub fn pop(&mut self) -> (r: Result<Vec<&'a str>, Error>)
        requires
            old(self).wf(),
        ensures
            match r {
                Ok(v) => {
                    &&& spec_pop(old(self).frames_view()) == Ok::<_, SpecError>(
                        (final(self).frames_view(), str_views(v@).to_set()),
                    )
                    &&& no_dup_names(str_views(v@))
                    &&& final(self).wf()
                },
                Err(e) => {
                    &&& spec_pop(old(self).frames_view()) == Err::<
                        (Seq<Seq<Seq<char>>>, Set<Seq<char>>),
                        _,
                    >(e@)
                    &&& *final(self) == *old(self)
                },
            },
    {
        if self.frames.len() == 0 {
            proof {
                assert(self.frames_view().len() == 0);
            }
            return Err(Error::UnbalancedEndTag);
        }
        let ghost old_fv = self.frames_view();
        let ghost old_av = str_views(self.active@);
        let mut snapshot: Vec<&'a str> = Vec::new();
        let mut i: usize = 0;
        while i < self.active.len()
            invariant
                self == old(self),
                i <= self.active@.len(),
                snapshot@ == self.active@.take(i as int),
            decreases self.active@.len() - i,
        {
            proof {
                assert(self.active@.take(i as int).push(self.active@[i as int])
                    =~= self.active@.take(i + 1));
            }
            let x = self.active[i];
            snapshot.push(x);
            i += 1;
        }
        proof {
            assert(snapshot@ =~= self.active@);
            assert(str_views(snapshot@) == old_av);
        }
        let frame = match self.frames.pop() {
            Some(f) => f,
            None => {
                proof {
                    assert(false);
                }
                Vec::new()
            },
        };
        let ghost fr = str_views(frame@);
        proof {
            assert(self.frames_view() =~= old_fv.drop_last());
            assert(old_fv.last() == fr);
        }
        let mut new_active: Vec<&'a str> = Vec::new();
        let mut k: usize = 0;
        let ghost new_fv = self.frames_view();
        proof {
            assert(str_views(new_active@) =~= remove_names(old_av.take(0), fr.to_set()));
            assert(old_av.take(0) =~= Seq::<Seq<char>>::empty());
        }
        while k < snapshot.len()
            invariant
                k <= snapshot@.len(),
                old_av == str_views(snapshot@),
                fr == str_views(frame@),
                str_views(new_active@) == remove_names(old_av.take(k as int), fr.to_set()),
            decreases snapshot@.len() - k,
        {
            let x = snapshot[k];
            proof {
                assert(old_av.take(k + 1).drop_last() =~= old_av.take(k as int));
                assert(old_av.take(k + 1).last() == x@);
            }
            if !contains_str(&frame, x) {
                proof {
                    assert(str_views(new_active@.push(x)) =~= str_views(new_active@).push(x@));
                }
                new_active.push(x);
            }
            k += 1;
        }
        proof {
            assert(old_av.take(snapshot@.len() as int) =~= old_av);
        }
        self.active = new_active;
        proof {
            let nav = str_views(self.active@);
            lemma_remove_names_facts(old_av, fr.to_set());
            // removing the popped frame leaves exactly the remaining active set
            assert forall|x: Seq<char>| #[trigger] nav.to_set().contains(x) implies active_of(
                new_fv,
            ).contains(x) by {
                assert(old_av.contains(x) && !fr.to_set().contains(x));
                assert(active_of(old_fv).contains(x));
                lemma_active_membership(old_fv, x);
                lemma_active_membership(new_fv, x);
                if x != Seq::<char>::empty() {
                    let t = choose|t: int|
                        0 <= t < old_fv.len() && (#[trigger] old_fv[t]).contains(x);
                    assert(t < old_fv.len() - 1);
                    assert(new_fv[t].contains(x));
                }
            }
            assert forall|x: Seq<char>| #[trigger]
                active_of(new_fv).contains(x) implies nav.to_set().contains(x) by {
                lemma_active_membership(old_fv, x);
                lemma_active_membership(new_fv, x);
                assert(active_of(old_fv).contains(x));
                assert(old_av.contains(x));
                if fr.to_set().contains(x) {
                    // a name of the popped frame is in no other frame and is
                    // not the root name
                    let lastf = old_fv[old_fv.len() - 1];
                    assert(lastf.contains(x));
                    assert(x != Seq::<char>::empty());
                    let t = choose|t: int|
                        0 <= t < new_fv.len() && (#[trigger] new_fv[t]).contains(x);
                    assert(old_fv[t].disjoint(lastf));
                    let p = choose|p: int| 0 <= p < old_fv[t].len() && old_fv[t][p] == x;
                    let q = choose|q: int| 0 <= q < lastf.len() && lastf[q] == x;
                    assert(old_fv[t][p] != lastf[q]);
                    assert(false);
                }
            }
            assert(nav.to_set() =~= active_of(new_fv));
            assert forall|k1: int, k2: int| 0 <= k1 < k2 < new_fv.len() implies (
            #[trigger] new_fv[k1]).disjoint(#[trigger] new_fv[k2]) by {
                assert(new_fv[k1] == old_fv[k1] && new_fv[k2] == old_fv[k2]);
            }
            assert forall|k1: int| 0 <= k1 < new_fv.len() implies no_dup_names(
                #[trigger] new_fv[k1],
            ) && !new_fv[k1].contains(Seq::<char>::empty()) by {
                assert(new_fv[k1] == old_fv[k1]);
            }
        }
        Ok(snapshot)
    }

    /// Check that every frame was closed, as `spec_done` describes.
    pub fn done(&self) -> (r: Result<(), Error>)
        requires
            self.wf(),
        ensures
            match r {
                Ok(_) => spec_done(self.frames_view()) is Ok,
                Err(e) => spec_done(self.frames_view()) == Err::<(), _>(e@),
            },
    {
        if self.frames.len() == 0 {
            proof {
                assert(self.frames_view().len() == 0);
            }
            return Ok(());
        }
        let fv_len = self.frames.len();
        let mut all: Vec<&'a str> = Vec::new();
        let mut i: usize = 0;
        let ghost fv = self.frames_view();
        proof {
            assert(str_views(all@) =~= flatten_frames(fv.take(0)));
            assert(fv.take(0) =~= Seq::<Seq<Seq<char>>>::empty());
        }
        while i < fv_len
            invariant
                self.wf(),
                fv == self.frames_view(),
                fv_len == self.frames@.len(),
                i <= fv_len,
                str_views(all@) == flatten_frames(fv.take(i as int)),
            decreases fv_len - i,
        {
            let frame = &self.frames[i];
            let mut j: usize = 0;
            let ghost before = str_views(all@);
            while j < frame.len()
                invariant
                    j <= frame@.len(),
                    frame == &self.frames@[i as int],
                    i < fv_len,
                    fv == self.frames_view(),
                    fv_len == self.frames@.len(),
                    str_views(all@) == before + str_views(frame@).take(j as int),
                decreases frame@.len() - j,
            {
                let x = frame[j];
                proof {
                    assert(str_views(all@.push(x)) =~= str_views(all@).push(x@));
                    assert((before + str_views(frame@).take(j as int)).push(x@) =~= before
                        + str_views(frame@).take(j + 1));
                }
                all.push(x);
                j += 1;
            }
            proof {
                assert(str_views(frame@).take(frame@.len() as int) =~= str_views(frame@));
                assert(fv.take(i + 1).drop_last() =~= fv.take(i as int));
                assert(fv.take(i + 1).last() == fv[i as int]);
                assert(fv[i as int] == str_views(frame@));
            }
            i += 1;
        }
        proof {
            assert(fv.take(fv_len as int) =~= fv);
        }
        let deduped = crate::names::dedup_names(&all);
        Err(Error::UnclosedTag(sorted_fragments(&deduped)))
    }
}

/// `s` with every name in `bad` removed.
pub open spec fn remove_names(s: Seq<Seq<char>>, bad: Set<Seq<char>>) -> Seq<Seq<char>>
    decreases s.len(),
{
    if s.len() == 0 {
        Seq::empty()
    } else {
        let d = remove_names(s.drop_last(), bad);
        if bad.contains(s.last()) {
            d
        } else {
            d.push(s.last())
        }
    }
}

/// Removal keeps exactly the names outside `bad`, without introducing
/// repetitions.
proof fn lemma_remove_names_facts(s: Seq<Seq<char>>, bad: Set<Seq<char>>)
    requires
        no_dup_names(s),
    ensures
        forall|x: Seq<char>|
            remove_names(s, bad).contains(x) <==> (s.contains(x) && !bad.contains(x)),
        no_dup_names(remove_names(s, bad)),
    decreases s.len(),
{
    let r = remove_names(s, bad);
    if s.len() == 0 {
        assert forall|x: Seq<char>| r.contains(x) implies (s.contains(x) && !bad.contains(
            x,
        )) by {}
    } else {
        let d0 = s.drop_last();
        assert(forall|i: int| 0 <= i < d0.len() ==> d0[i] == s[i]);
        lemma_remove_names_facts(d0, bad);
        let rd = remove_names(d0, bad);
        assert forall|x: Seq<char>| #[trigger] r.contains(x) implies (s.contains(x)
            && !bad.contains(x)) by {
            let t = choose|t: int| 0 <= t < r.len() && r[t] == x;
            if bad.contains(s.last()) {
                assert(rd.contains(x));
            } else {
                if t < r.len() - 1 {
                    assert(rd[t] == x);
                    assert(rd.contains(x));
                } else {
                    assert(x == s.last());
                    assert(s.contains(x));
                }
            }
            if d0.contains(x) {
                let p = choose|p: int| 0 <= p < d0.len() && d0[p] == x;
                assert(s[p] == x);
            }
        }
        assert forall|x: Seq<char>| s.contains(x) && !bad.contains(x) implies #[trigger] r.contains(
            x,
        ) by {
            let t = choose|t: int| 0 <= t < s.len() && s[t] == x;
            if t < s.len() - 1 {
                assert(d0[t] == x);
                assert(d0.contains(x));
                assert(rd.contains(x));
                let p = choose|p: int| 0 <= p < rd.len() && rd[p] == x;
                if bad.contains(s.last()) {
                } else {
                    assert(r[p] == x);
                }
            } else {
                assert(x == s.last());
                assert(!bad.contains(x));
                assert(r[r.len() - 1] == x);
            }
        }
        assert forall|p: int, q: int| 0 <= p < q < r.len() implies r[p] != r[q] by {
            if bad.contains(s.last()) {
            } else {
                if q == r.len() - 1 {
                    assert(r[q] == s.last());
                    assert(r[p] == rd[p]);
                    assert(rd.contains(rd[p]));
                    if rd[p] == s.last() {
                        assert(d0.contains(s.last()));
                        let w = choose|w: int| 0 <= w < d0.len() && d0[w] == s.last();
                        assert(s[w] == s[s.len() - 1]);
                    }
                } else {
                    assert(r[p] == rd[p] && r[q] == rd[q]);
                }
            }
        }
    }
}

} // verus!

//! The output accumulator of `split_templates`: a mapping from fragment
//! name to accumulated text, with an entry created on the first write to
//! a name.

use vstd::prelude::*;
use vstd::string::StrSliceExecFns;
use vstd::string::StringExecFns;
use crate::text::{str_eq, string_views};

verus! {

/// The association of keys to values as a spec-level map.
pub open spec fn kv_map(ks: Seq<Seq<char>>, vs: Seq<Seq<char>>) -> Map<Seq<char>, Seq<char>>
    decreases ks.len(),
{
    if ks.len() == 0 || vs.len() == 0 {
        Map::empty()
    } else {
        kv_map(ks.drop_last(), vs.drop_last()).insert(ks.last(), vs.last())
    }
}

/// The text mapped to `k`, or the empty text if `k` has no entry yet.
pub open spec fn get_or_empty(m: Map<Seq<char>, Seq<char>>, k: Seq<char>) -> Seq<char> {
    if m.dom().contains(k) {
        m[k]
    } else {
        Seq::empty()
    }
}

/// One write: append `l` to the entry of `k`, creating it if absent.
pub open spec fn append_to(
    m: Map<Seq<char>, Seq<char>>,
    k: Seq<char>,
    l: Seq<char>,
) -> Map<Seq<char>, Seq<char>> {
    m.insert(k, get_or_empty(m, k) + l)
}

/// One line written to every name in `names` at once: each named entry
/// gets `l` appended (created first if absent), all others are
/// untouched.
pub open spec fn multi_append(
    m: Map<Seq<char>, Seq<char>>,
    names: Set<Seq<char>>,
    l: Seq<char>,
) -> Map<Seq<char>, Seq<char>> {
    Map::new(
        |k: Seq<char>| m.dom().contains(k) || names.contains(k),
        |k: Seq<char>|
            if names.contains(k) {
                get_or_empty(m, k) + l
            } else {
                m[k]
            },
    )
}

/// Writing to no name changes nothing.
pub proof fn lemma_multi_append_empty(m: Map<Seq<char>, Seq<char>>, l: Seq<char>)
    ensures
        multi_append(m, Set::empty(), l) == m,
{
    assert(multi_append(m, Set::empty(), l) =~= m);
}

/// Writing to one more name is one more single write.
pub proof fn lemma_multi_append_step(
    m: Map<Seq<char>, Seq<char>>,
    s: Set<Seq<char>>,
    n: Seq<char>,
    l: Seq<char>,
)
    requires
        !s.contains(n),
    ensures
        multi_append(m, s.insert(n), l) == append_to(multi_append(m, s, l), n, l),
{
    assert(multi_append(m, s.insert(n), l) =~= append_to(multi_append(m, s, l), n, l));
}

/// With keys of equal count and no repetition, `kv_map` is keyed exactly
/// by the keys, in last-wins order (here first-wins, as keys are unique).
proof fn lemma_kv_map_facts(ks: Seq<Seq<char>>, vs: Seq<Seq<char>>)
    requires
        ks.len() == vs.len(),
        ks.no_duplicates(),
    ensures
        forall|x: Seq<char>| #[trigger] kv_map(ks, vs).dom().contains(x) <==> ks.contains(x),
        forall|i: int| 0 <= i < ks.len() ==> kv_map(ks, vs)[#[trigger] ks[i]] == vs[i],
    decreases ks.len(),
{
    if ks.len() > 0 {
        let kd = ks.drop_last();
        let vd = vs.drop_last();
        lemma_kv_map_facts(kd, vd);
        assert(forall|i: int| 0 <= i < kd.len() ==> kd[i] == ks[i]);
        let m = kv_map(ks, vs);
        assert forall|x: Seq<char>| #[trigger] m.dom().contains(x) implies ks.contains(x) by {
            if x != ks.last() {
                assert(kv_map(kd, vd).dom().contains(x));
                assert(kd.contains(x));
                let t = choose|t: int| 0 <= t < kd.len() && kd[t] == x;
                assert(ks[t] == x);
            }
        }
        assert forall|x: Seq<char>| ks.contains(x) implies #[trigger] m.dom().contains(x) by {
            let t = choose|t: int| 0 <= t < ks.len() && ks[t] == x;
            if t < ks.len() - 1 {
                assert(kd[t] == x);
                assert(kd.contains(x));
            }
        }
        assert forall|i: int| 0 <= i < ks.len() implies m[#[trigger] ks[i]] == vs[i] by {
            if i < ks.len() - 1 {
                assert(ks[i] != ks.last());
                assert(kd[i] == ks[i] && vd[i] == vs[i]);
            }
        }
    }
}

/// A mapping from fragment name to its accumulated text.
///
/// Entries are created lazily on the first write to a name; insertion
/// order carries no meaning.
#[derive(Debug, Clone, PartialEq, Eq)]
pub struct TemplateMap {
    keys: Vec<String>,
    vals: Vec<String>,
}

impl View for TemplateMap {
    type V = Map<Seq<char>, Seq<char>>;

    closed spec fn view(&self) -> Map<Seq<char>, Seq<char>> {
        kv_map(string_views(self.keys@), string_views(self.vals@))
    }
}

impl TemplateMap {
    /// Keys do not repeat and pair up with the values.
    pub closed spec fn wf(self) -> bool {
        &&& self.keys@.len() == self.vals@.len()
        &&& string_views(self.keys@).no_duplicates()
    }

    /// An empty mapping.
    pub fn new() -> (r: Self)
        ensures
            r.wf(),
            r@ == Map::<Seq<char>, Seq<char>>::empty(),
    {
        let r = TemplateMap { keys: Vec::new(), vals: Vec::new() };
        proof {
            assert(string_views(r.keys@).len() == 0);
        }
        r
    }

    /// How many fragment names have an entry.
    pub fn len(&self) -> (r: usize)
        requires
            self.wf(),
        ensures
            r == self@.dom().len(),
    {
        proof {
            let kviews = string_views(self.keys@);
            let vviews = string_views(self.vals@);
            lemma_kv_map_facts(kviews, vviews);
            assert(self@.dom() =~= kviews.to_set());
            kviews.unique_seq_to_set();
        }
        self.keys.len()
    }

    /// The fragment names that have an entry, each exactly once, in
    /// order of first write.
    pub fn names(&self) -> (r: &Vec<String>)
        requires
            self.wf(),
        ensures
            string_views(r@).to_set() == self@.dom(),
            string_views(r@).no_duplicates(),
    {
        proof {
            let kviews = string_views(self.keys@);
            lemma_kv_map_facts(kviews, string_views(self.vals@));
            assert(self@.dom() =~= kviews.to_set());
        }
        &self.keys
    }

    /// The text accumulated for `name`, if any line was written to it.
    pub fn get<'s>(&'s self, name: &str) -> (r: Option<&'s String>)
        requires
            self.wf(),
        ensures
            match r {
                Some(v) => self@.dom().contains(name@) && self@[name@] == v@,
                None => !self@.dom().contains(name@),
            },
    {
        proof {
            lemma_kv_map_facts(string_views(self.keys@), string_views(self.vals@));
        }
        let mut i: usize = 0;
        while i < self.keys.len()
            invariant
                self.wf(),
                i <= self.keys@.len(),
                forall|j: int| 0 <= j < i ==> string_views(self.keys@)[j] != name@,
            decreases self.keys@.len() - i,
        {
            if str_eq(self.keys[i].as_str(), name) {
                proof {
                    let kviews = string_views(self.keys@);
                    assert(kviews[i as int] == name@);
                    lemma_kv_map_facts(kviews, string_views(self.vals@));
                }
                return Some(&self.vals[i]);
            }
            i += 1;
        }
        proof {
            let kviews = string_views(self.keys@);
            lemma_kv_map_facts(kviews, string_views(self.vals@));
            if self@.dom().contains(name@) {
                let t = choose|t: int| 0 <= t < kviews.len() && kviews[t] == name@;
                assert(kviews[t] != name@);
            }
        }
        None
    }

    /// Append `line` to the entry of `fragment`, creating the entry if
    /// this is the first write to that name.
    pub fn push_line(&mut self, fragment: &str, line: &str)
        requires
            old(self).wf(),
        ensures
            final(self).wf(),
            final(self)@ == append_to(old(self)@, fragment@, line@),
    {
        proof {
            lemma_kv_map_facts(string_views(self.keys@), string_views(self.vals@));
        }
        let ghost old_kv = string_views(self.keys@);
        let ghost old_vv = string_views(self.vals@);
        let mut i: usize = 0;
        while i < self.keys.len()
            invariant
                self == old(self),
                self.wf(),
                old_kv == string_views(self.keys@),
                old_vv == string_views(self.vals@),
                i <= self.keys@.len(),
                forall|j: int| 0 <= j < i ==> string_views(self.keys@)[j] != fragment@,
            decreases self.keys@.len() - i,
        {
            if str_eq(self.keys[i].as_str(), fragment) {
                proof {
                    assert(string_views(self.keys@)[i as int] == fragment@);
                    lemma_kv_map_facts(old_kv, old_vv);
                }
                let ghost old_map = kv_map(old_kv, old_vv);
                self.vals[i].append(line);
                proof {
                    let new_vv = string_views(self.vals@);
                    assert(new_vv =~= old_vv.update(i as int, old_vv[i as int] + line@));
                    lemma_kv_map_update(old_kv, old_vv, i as int, old_vv[i as int] + line@);
                    assert(get_or_empty(old_map, fragment@) == old_vv[i as int]);
                    assert(self@ =~= append_to(old_map, fragment@, line@));
                }
                return ;
            }
            i += 1;
        }
        proof {
            lemma_kv_map_facts(old_kv, old_vv);
            if old(self)@.dom().contains(fragment@) {
                let t = choose|t: int| 0 <= t < old_kv.len() && old_kv[t] == fragment@;
                assert(old_kv[t] != fragment@);
            }
        }
        let key = fragment.to_owned();
        let val = line.to_owned();
        self.keys.push(key);
        self.vals.push(val);
        proof {
            let new_kv = string_views(self.keys@);
            let new_vv = string_views(self.vals@);
            assert(new_kv =~= old_kv.push(fragment@));
            assert(new_vv =~= old_vv.push(line@));
            assert(new_kv.drop_last() =~= old_kv);
            assert(new_vv.drop_last() =~= old_vv);
            assert(new_kv.last() == fragment@);
            // the new key is fresh, so no_duplicates is kept
            assert forall|p: int, q: int| 0 <= p < q < new_kv.len() implies new_kv[p]
                != new_kv[q] by {
                if q == new_kv.len() - 1 {
                    assert(new_kv[p] == old_kv[p]);
                }
            }
            assert(Seq::<char>::empty() + line@ =~= line@);
            assert(final(self)@ =~= append_to(old(self)@, fragment@, line@));
        }
    }
}

/// Append `line` to the entry of every name in `names`, as one
/// `multi_append`.
pub fn push_line_all(map: &mut TemplateMap, names: &Vec<&str>, line: &str)
    requires
        old(map).wf(),
        forall|i: int, j: int|
            0 <= i < j < names@.len() ==> crate::text::str_views(names@)[i]
                != crate::text::str_views(names@)[j],
    ensures
        final(map).wf(),
        final(map)@ == multi_append(old(map)@, crate::text::str_views(names@).to_set(), line@),
{
    let ghost tv = crate::text::str_views(names@);
    let ghost m0 = map@;
    let mut k: usize = 0;
    proof {
        assert(tv.take(0).to_set() =~= Set::<Seq<char>>::empty());
        lemma_multi_append_empty(m0, line@);
    }
    while k < names.len()
        invariant
            k <= names@.len(),
            tv == crate::text::str_views(names@),
            forall|i: int, j: int| 0 <= i < j < tv.len() ==> tv[i] != tv[j],
            map.wf(),
            map@ == multi_append(m0, tv.take(k as int).to_set(), line@),
        decreases names@.len() - k,
    {
        proof {
            let pre = tv.take(k as int);
            let post = tv.take(k + 1);
            assert forall|x: Seq<char>| #[trigger] post.to_set().contains(x) implies pre.to_set().insert(
                tv[k as int],
            ).contains(x) by {
                let t = choose|t: int| 0 <= t < post.len() && post[t] == x;
                if t < k {
                    assert(pre[t] == x);
                    assert(pre.contains(x));
                }
            }
            assert forall|x: Seq<char>| pre.to_set().insert(tv[k as int]).contains(
                x,
            ) implies #[trigger] post.to_set().contains(x) by {
                if pre.contains(x) {
                    let t = choose|t: int| 0 <= t < pre.len() && pre[t] == x;
                    assert(post[t] == x);
                } else {
                    assert(post[k as int] == x);
                }
            }
            assert(post.to_set() =~= pre.to_set().insert(tv[k as int]));
            if pre.to_set().contains(tv[k as int]) {
                let t = choose|t: int| 0 <= t < pre.len() && pre[t] == tv[k as int];
                assert(tv[t] == tv[k as int]);
            }
            lemma_multi_append_step(m0, pre.to_set(), tv[k as int], line@);
        }
        map.push_line(names[k], line);
        k += 1;
    }
    proof {
        assert(tv.take(names@.len() as int) =~= tv);
    }
}

/// Updating one value slot updates the map at that key.
proof fn lemma_kv_map_update(ks: Seq<Seq<char>>, vs: Seq<Seq<char>>, i: int, v: Seq<char>)
    requires
        ks.len() == vs.len(),
        ks.no_duplicates(),
        0 <= i < ks.len(),
    ensures
        kv_map(ks, vs.update(i, v)) == kv_map(ks, vs).insert(ks[i], v),
    decreases ks.len(),
{
    lemma_kv_map_facts(ks, vs);
    let kd = ks.drop_last();
    let vd = vs.drop_last();
    if i == ks.len() - 1 {
        assert(vs.update(i, v).drop_last() =~= vd);
        assert(vs.update(i, v).last() == v);
        assert(kv_map(ks, vs.update(i, v)) =~= kv_map(ks, vs).insert(ks[i], v));
    } else {
        assert(kd.no_duplicates());
        assert(forall|j: int| 0 <= j < kd.len() ==> kd[j] == ks[j]);
        lemma_kv_map_update(kd, vd, i, v);
        assert(vs.update(i, v).drop_last() =~= vd.update(i, v));
        assert(vs.update(i, v).last() == vs.last());
        assert(ks[i] != ks.last());
        assert(kv_map(ks, vs.update(i, v)) =~= kv_map(ks, vs).insert(ks[i], v));
    }
}

} // verus!

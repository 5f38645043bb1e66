//! Per-stream index summaries: the entries of a status reply, and the
//! in-batch running maxima that the write path merges into the cache.
//!
//! A `RecordStatus` maps each (host, tag) stream of one user to the maximum
//! index held for it; a client reads it to decide which ranges remain to be
//! pulled. It keeps one entry per stream.

use vstd::prelude::*;

use crate::model::{
    heads_get, heads_unique, lemma_heads_get_at, lemma_heads_get_some, HeadView,
};
use crate::record::HostId;

verus! {

/// One per-stream summary: a (host, tag) stream and an index.
#[derive(Debug)]
pub struct StreamHead {
    pub host: HostId,
    pub tag: String,
    pub idx: u64,
}

impl View for StreamHead {
    type V = HeadView;

    open spec fn view(&self) -> HeadView {
        HeadView { host: self.host.0 as u128, tag: self.tag@, idx: self.idx }
    }
}

impl Clone for StreamHead {
    fn clone(&self) -> (r: Self)
        ensures
            r@ == self@,
    {
        StreamHead { host: self.host, tag: self.tag.clone(), idx: self.idx }
    }
}

/// The view of a summary list, entry by entry.
pub open spec fn heads_view(heads: Seq<StreamHead>) -> Seq<HeadView> {
    heads.map_values(|e: StreamHead| e@)
}

/// Finds the summary entry for (host, tag), if one is there.
pub(crate) fn find_head(heads: &Vec<StreamHead>, host: HostId, tag: &String) -> (r: Option<usize>)
    ensures
        match r {
            Some(p) => p < heads.len() && heads@[p as int]@.host == host.0 && heads@[p as int]@.tag
                == tag@,
            None => forall|j: int|
                0 <= j < heads.len() ==> !((#[trigger] heads@[j]@).host == host.0 && heads@[j]@.tag
                    == tag@),
        },
{
    let mut j: usize = 0;
    while j < heads.len()
        invariant
            j <= heads.len(),
            forall|k: int|
                0 <= k < j ==> !((#[trigger] heads@[k]@).host == host.0 && heads@[k]@.tag == tag@),
        decreases heads.len() - j,
    {
        if heads[j].host == host && heads[j].tag == *tag {
            return Some(j);
        }
        j += 1;
    }
    None
}

/// The value the summary records for (host, tag), scanning from the end so
/// the reply equals the ghost lookup exactly, entries unique or not.
pub fn heads_lookup(heads: &Vec<StreamHead>, host: HostId, tag: &String) -> (r: Option<u64>)
    ensures
        r == heads_get(heads_view(heads@), host.0 as u128, tag@),
{
    let ghost hv = heads_view(heads@);
    let mut j: usize = heads.len();
    proof {
        assert(hv.take(heads.len() as int) =~= hv);
    }
    while j > 0
        invariant
            j <= heads.len(),
            hv == heads_view(heads@),
            heads_get(hv, host.0 as u128, tag@) == heads_get(hv.take(j as int), host.0 as u128, tag@),
        decreases j,
    {
        let e = &heads[j - 1];
        proof {
            assert(hv.take(j as int).drop_last() =~= hv.take(j - 1));
            assert(hv.take(j as int).last() == hv[j - 1]);
            assert(hv[j - 1] == heads@[j - 1]@);
        }
        if e.host == host && e.tag == *tag {
            return Some(e.idx);
        }
        j -= 1;
    }
    proof {
        assert(hv.take(0) =~= Seq::<HeadView>::empty());
    }
    None
}

/// Do two summary lists record the same thing? Checks, both ways, that each
/// entry's key looks up to the same index in the other list; when each list
/// holds one entry per key, that is exactly lookup-for-lookup equality.
pub fn heads_match(a: &Vec<StreamHead>, b: &Vec<StreamHead>) -> (r: bool)
    ensures
        r == ({
            &&& forall|j: int|
                0 <= j < heads_view(a@).len() ==> heads_get(
                    heads_view(b@),
                    (#[trigger] heads_view(a@)[j]).host,
                    heads_view(a@)[j].tag,
                ) == Some(heads_view(a@)[j].idx)
            &&& forall|j: int|
                0 <= j < heads_view(b@).len() ==> heads_get(
                    heads_view(a@),
                    (#[trigger] heads_view(b@)[j]).host,
                    heads_view(b@)[j].tag,
                ) == Some(heads_view(b@)[j].idx)
        }),
        heads_unique(heads_view(a@)) && heads_unique(heads_view(b@)) ==> r == (forall|
            h: u128,
            t: Seq<char>,
        |
            #[trigger] heads_get(heads_view(a@), h, t) == heads_get(heads_view(b@), h, t)),
{
    let ghost av = heads_view(a@);
    let ghost bv = heads_view(b@);
    let mut ok: bool = true;
    let mut j: usize = 0;
    while j < a.len()
        invariant
            j <= a.len(),
            av == heads_view(a@),
            bv == heads_view(b@),
            ok == (forall|k: int|
                0 <= k < j ==> heads_get(bv, (#[trigger] av[k]).host, av[k].tag) == Some(
                    av[k].idx,
                )),
        decreases a.len() - j,
    {
        let e = &a[j];
        proof {
            assert(av[j as int] == a@[j as int]@);
        }
        let got = heads_lookup(b, e.host, &e.tag);
        let hit = match got {
            Some(v) => v == e.idx,
            None => false,
        };
        ok = ok && hit;
        j += 1;
    }
    let mut p: usize = 0;
    while p < b.len()
        invariant
            p <= b.len(),
            av == heads_view(a@),
            bv == heads_view(b@),
            ok == ((forall|k: int|
                0 <= k < av.len() ==> heads_get(bv, (#[trigger] av[k]).host, av[k].tag) == Some(
                    av[k].idx,
                )) && (forall|k: int|
                0 <= k < p ==> heads_get(av, (#[trigger] bv[k]).host, bv[k].tag) == Some(
                    bv[k].idx,
                ))),
        decreases b.len() - p,
    {
        let e = &b[p];
        proof {
            assert(bv[p as int] == b@[p as int]@);
        }
        let got = heads_lookup(a, e.host, &e.tag);
        let hit = match got {
            Some(v) => v == e.idx,
            None => false,
        };
        ok = ok && hit;
        p += 1;
    }
    proof {
        if heads_unique(av) && heads_unique(bv) {
            if ok {
                assert forall|h: u128, t: Seq<char>|
                    #[trigger] heads_get(av, h, t) == heads_get(bv, h, t) by {
                    if heads_get(av, h, t) is Some {
                        lemma_heads_get_some(av, h, t);
                        let k = choose|k: int|
                            0 <= k < av.len() && (#[trigger] av[k]).host == h && av[k].tag == t
                                && av[k].idx == heads_get(av, h, t)->0;
                    } else {
                        if heads_get(bv, h, t) is Some {
                            lemma_heads_get_some(bv, h, t);
                            let k = choose|k: int|
                                0 <= k < bv.len() && (#[trigger] bv[k]).host == h && bv[k].tag == t
                                    && bv[k].idx == heads_get(bv, h, t)->0;
                        }
                    }
                }
            } else {
                if (forall|h: u128, t: Seq<char>|
                    #[trigger] heads_get(av, h, t) == heads_get(bv, h, t)) {
                    assert forall|k: int| 0 <= k < av.len() implies heads_get(
                        bv,
                        (#[trigger] av[k]).host,
                        av[k].tag,
                    ) == Some(av[k].idx) by {
                        lemma_heads_get_at(av, k);
                        assert(heads_get(av, av[k].host, av[k].tag) == heads_get(
                            bv,
                            av[k].host,
                            av[k].tag,
                        ));
                    }
                    assert forall|k: int| 0 <= k < bv.len() implies heads_get(
                        av,
                        (#[trigger] bv[k]).host,
                        bv[k].tag,
                    ) == Some(bv[k].idx) by {
                        lemma_heads_get_at(bv, k);
                        assert(heads_get(bv, bv[k].host, bv[k].tag) == heads_get(
                            av,
                            bv[k].host,
                            bv[k].tag,
                        ));
                    }
                    assert(ok);
                }
            }
        }
    }
    ok
}

/// Mapping from (host, tag) to the maximum index held for that stream.
#[derive(Debug)]
pub struct RecordStatus {
    pub entries: Vec<StreamHead>,
}

impl View for RecordStatus {
    type V = Seq<HeadView>;

    open spec fn view(&self) -> Seq<HeadView> {
        heads_view(self.entries@)
    }
}

impl RecordStatus {
    /// One entry per stream.
    pub open spec fn wf(self) -> bool {
        heads_unique(self@)
    }

    /// An empty mapping.
    pub fn new() -> (r: RecordStatus)
        ensures
            r.wf(),
            r@ == Seq::<HeadView>::empty(),
    {
        let r = RecordStatus { entries: Vec::new() };
        proof {
            assert(r@ =~= Seq::<HeadView>::empty());
        }
        r
    }

    /// The index recorded for (host, tag), if any.
    pub fn get(&self, host: HostId, tag: &String) -> (r: Option<u64>)
        ensures
            r == heads_get(self@, host.0 as u128, tag@),
    {
        heads_lookup(&self.entries, host, tag)
    }

    /// Sets the index recorded for (host, tag), inserting or overwriting; no
    /// other stream is touched.
    pub fn set_raw(&mut self, host: HostId, tag: String, idx: u64)
        requires
            old(self).wf(),
        ensures
            final(self).wf(),
            forall|h: u128, t: Seq<char>|
                #[trigger] heads_get(final(self)@, h, t) == (if h == host.0 && t == tag@ {
                    Some(idx)
                } else {
                    heads_get(old(self)@, h, t)
                }),
    {
        let ghost prev = self@;
        let ghost newv = HeadView { host: host.0 as u128, tag: tag@, idx };
        match find_head(&self.entries, host, &tag) {
            Some(p) => {
                let e = StreamHead { host, tag, idx };
                proof {
                    assert(crate::model::same_head_key(prev[p as int], newv));
                }
                self.entries[p] = e;
                proof {
                    assert(self@ =~= prev.update(p as int, newv));
                    assert forall|h: u128, t: Seq<char>|
                        #[trigger] heads_get(self@, h, t) == (if h == newv.host && t == newv.tag {
                            Some(idx)
                        } else {
                            heads_get(prev, h, t)
                        }) by {
                        crate::model::lemma_heads_get_update(prev, p as int, newv, h, t);
                    }
                    crate::model::lemma_heads_get_update(
                        prev,
                        p as int,
                        newv,
                        newv.host,
                        newv.tag,
                    );
                }
            },
            None => {
                let e = StreamHead { host, tag, idx };
                self.entries.push(e);
                proof {
                    assert(self@ =~= prev.push(newv));
                    assert(self@.drop_last() =~= prev);
                    assert forall|j1: int, j2: int|
                        0 <= j1 < j2 < self@.len() implies !crate::model::same_head_key(
                        self@[j1],
                        self@[j2],
                    ) by {
                        if j2 < prev.len() {
                            assert(self@[j1] == prev[j1] && self@[j2] == prev[j2]);
                        } else {
                            assert(self@[j1] == prev[j1]);
                        }
                    }
                }
            },
        }
    }

    /// How many streams the mapping covers.
    pub fn len(&self) -> (r: usize)
        ensures
            r == self@.len(),
    {
        self.entries.len()
    }
}

} // verus!

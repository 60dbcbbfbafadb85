use crate::key_order::{compare_keys, key_cmp, keys_equal};
use crate::merge_spec::{
    drained_until, drop_key, lemma_merged_of_empty_sources, lemma_pick_range, merged, pick,
};
use crate::storage_iterator::{advance, Entry, StorageIterator};
use std::cmp::Ordering;
use vstd::prelude::*;

verus! {

/// One sub-iterator together with its position in the list it was given in.
struct HeapWrapper<I: StorageIterator>(usize, Box<I>);

impl<I: StorageIterator> HeapWrapper<I> {
    /// Usable and not used up.
    spec fn live(&self) -> bool {
        self.1.inv() && self.1.stream().len() > 0
    }

    spec fn head_key(&self) -> Seq<u8> {
        self.1.stream()[0].0
    }

    /// The selection order: by current key, then by source index.
    fn cmp(&self, other: &Self) -> (r: Ordering)
        requires
            self.live(),
            other.live(),
        ensures
            r == (match key_cmp(self.head_key(), other.head_key()) {
                Ordering::Equal => if self.0 < other.0 {
                    Ordering::Less
                } else if self.0 > other.0 {
                    Ordering::Greater
                } else {
                    Ordering::Equal
                },
                o => o,
            }),
    {
        match compare_keys(self.1.key(), other.1.key()) {
            Ordering::Equal => if self.0 < other.0 {
                Ordering::Less
            } else if self.0 > other.0 {
                Ordering::Greater
            } else {
                Ordering::Equal
            },
            o => o,
        }
    }
}

/// Merges sub-iterators of one type into a single sorted stream. When a key
/// occurs in several of them, the element of the one with the smallest index
/// is the one that is kept.
///
/// `iters` is the queue, one slot per input position: a slot holds the
/// sub-iterator of that position while it is live and not current.
pub struct MergeIterator<I: StorageIterator> {
    iters: Vec<Option<HeapWrapper<I>>>,
    current: Option<HeapWrapper<I>>,
}

impl<I: StorageIterator> MergeIterator<I> {
    /// What is left of the sub-iterator in a slot.
    spec fn slot_stream(s: Option<HeapWrapper<I>>) -> Seq<Entry> {
        match s {
            Some(h) => h.1.stream(),
            None => seq![],
        }
    }

    /// What is left of source `j`.
    pub closed spec fn source(&self, j: int) -> Seq<Entry> {
        if self.current is Some && self.current.unwrap().0 == j {
            self.current.unwrap().1.stream()
        } else {
            Self::slot_stream(self.iters@[j])
        }
    }

    /// What is left of each source, by input position; a discarded source is
    /// empty.
    pub closed spec fn sources(&self) -> Seq<Seq<Entry>> {
        Seq::new(self.iters@.len(), |j: int| self.source(j))
    }

    /// The slots hold their own positions, only live sub-iterators, and
    /// none at the current one's position.
    pub closed spec fn slots_ok(&self) -> bool {
        &&& forall|j: int|
            0 <= j < self.iters@.len() && #[trigger] self.iters@[j] is Some ==> {
                &&& self.iters@[j].unwrap().0 == j
                &&& self.iters@[j].unwrap().live()
            }
        &&& self.current is Some ==> {
            &&& self.current.unwrap().0 < self.iters@.len()
            &&& self.iters@[self.current.unwrap().0 as int] is None
            &&& self.current.unwrap().live()
        }
    }

    /// Well-formed: the slots are in order, and current is absent only when
    /// every source is used up.
    pub closed spec fn wf(&self) -> bool {
        &&& self.slots_ok()
        &&& self.current is None ==> forall|j: int|
            0 <= j < self.iters@.len() ==> #[trigger] self.iters@[j] is None
    }

    /// Current holds the first head of all sources.
    pub closed spec fn settled(&self) -> bool {
        self.current is Some ==> pick(self.sources(), self.iters@.len() as int)
            == self.current.unwrap().0
    }

    /// The input position of the current sub-iterator; -1 when there is none.
    pub closed spec fn current_source(&self) -> int {
        match self.current {
            Some(c) => c.0 as int,
            None => -1,
        }
    }

    /// The live entry at position `j`, wherever it stands.
    fn entry_at(&self, j: usize) -> (r: Option<&HeapWrapper<I>>)
        requires
            self.slots_ok(),
            j < self.iters@.len(),
        ensures
            r is Some <==> self.source(j as int).len() > 0,
            r is Some ==> r.unwrap().0 == j && r.unwrap().live() && r.unwrap().1.stream()
                == self.source(j as int),
    {
        match &self.current {
            Some(c) => {
                if c.0 == j {
                    return Some(c);
                }
            },
            None => {},
        }
        self.iters[j].as_ref()
    }

    /// Brings the first head of all into `current`; what each source holds
    /// stays the same.
    fn settle(&mut self)
        requires
            old(self).slots_ok(),
        ensures
            final(self).wf(),
            final(self).settled(),
            final(self).sources() == old(self).sources(),
            final(self).stream() == merged(old(self).sources()),
    {
        let n = self.iters.len();
        let ghost ss = self.sources();
        let mut best: Option<usize> = None;
        let mut j: usize = 0;
        while j < n
            invariant
                n == self.iters@.len(),
                ss == self.sources(),
                self.slots_ok(),
                j <= n,
                best is None ==> pick(ss, j as int) == -1,
                best is Some ==> pick(ss, j as int) == best.unwrap() as int,
            decreases n - j,
        {
            proof {
                lemma_pick_range(ss, j as int);
            }
            match self.entry_at(j) {
                None => {},
                Some(e) => {
                    match best {
                        None => {
                            best = Some(j);
                        },
                        Some(b) => {
                            let eb = self.entry_at(b).unwrap();
                            if let Ordering::Less = e.cmp(eb) {
                                best = Some(j);
                            }
                        },
                    }
                },
            }
            j = j + 1;
        }
        proof {
            lemma_pick_range(ss, n as int);
        }
        if let Some(b) = best {
            let at_current = match &self.current {
                Some(c) => c.0 == b,
                None => false,
            };
            if !at_current {
                let mut taken = self.iters[b].take();
                std::mem::swap(&mut self.current, &mut taken);
                if let Some(h) = taken {
                    let i = h.0;
                    self.iters[i] = Some(h);
                }
                assert(self.sources() =~= ss);
            }
        } else {
            proof {
                if self.current is Some {
                    assert(ss[self.current.unwrap().0 as int].len() > 0);
                }
            }
            assert forall|j: int| 0 <= j < self.iters@.len() implies #[trigger] self.iters@[j] is None by {
                assert(ss[j].len() == 0);
            }
        }
        proof {
            self.lemma_settled_stream();
        }
    }

    /// Builds the merge of `iters`; the position of each in the list is its
    /// source index. Sub-iterators that are already used up are dropped.
    pub fn create(iters: Vec<Box<I>>) -> (r: Self)
        requires
            forall|j: int| 0 <= j < iters@.len() ==> (#[trigger] iters@[j]).inv(),
        ensures
            r.wf(),
            r.settled(),
            r.sources() == iters@.map_values(|it: Box<I>| it.stream()),
            r.stream() == merged(iters@.map_values(|it: Box<I>| it.stream())),
            (forall|j: int| 0 <= j < iters@.len() ==> (#[trigger] iters@[j]).stream().len() == 0)
                ==> r.stream().len() == 0,
    {
        let ghost given = iters@;
        let n = iters.len();
        let mut slots: Vec<Option<HeapWrapper<I>>> = Vec::new();
        let mut k: usize = 0;
        while k < n
            invariant
                k <= n,
                slots@.len() == k,
                forall|j: int| 0 <= j < k ==> #[trigger] slots@[j] is None,
            decreases n - k,
        {
            slots.push(None);
            k = k + 1;
        }
        let mut iters = iters;
        while iters.len() > 0
            invariant
                slots@.len() == n,
                n == given.len(),
                iters@.len() <= n,
                forall|j: int| 0 <= j < iters@.len() ==> #[trigger] iters@[j] == given[j],
                forall|j: int| iters@.len() <= j < n ==> ((#[trigger] slots@[j]) is Some <==> given[j].stream().len() > 0),
                forall|j: int| 0 <= j < n && (#[trigger] slots@[j]) is Some ==> {
                    &&& j >= iters@.len()
                    &&& slots@[j].unwrap().0 == j
                    &&& slots@[j].unwrap().1 == given[j]
                    &&& slots@[j].unwrap().live()
                },
                forall|j: int| 0 <= j < given.len() ==> (#[trigger] given[j]).inv(),
            decreases iters@.len(),
        {
            let i = iters.len() - 1;
            let it = iters.pop().unwrap();
            if it.is_valid() {
                slots[i] = Some(HeapWrapper(i, it));
            }
        }
        let mut r = MergeIterator { iters: slots, current: None };
        assert forall|j: int| 0 <= j < n implies #[trigger] r.sources()[j] == given.map_values(|it: Box<I>| it.stream())[j] by {
            if r.iters@[j] is None {
                assert(given[j].stream() =~= seq![]);
            }
        }
        assert(r.sources() =~= given.map_values(|it: Box<I>| it.stream()));
        r.settle();
        proof {
            if forall|j: int| 0 <= j < given.len() ==> (#[trigger] given[j]).stream().len() == 0 {
                lemma_merged_of_empty_sources(r.sources());
            }
        }
        r
    }
}

impl<I: StorageIterator> StorageIterator for MergeIterator<I> {
    /// The current head, then the merge of what the sources hold past its key.
    closed spec fn stream(&self) -> Seq<Entry> {
        match self.current {
            Some(c) => seq![c.1.stream()[0]] + merged(drop_key(self.sources(), c.head_key())),
            None => seq![],
        }
    }

    open spec fn inv(&self) -> bool {
        self.wf()
    }

    fn key(&self) -> (r: &[u8])
        ensures
            self.stream().len() == 0 ==> r@.len() == 0,
    {
        match &self.current {
            Some(c) => c.1.key(),
            None => &[],
        }
    }

    fn value(&self) -> (r: &[u8])
        ensures
            self.stream().len() == 0 ==> r@.len() == 0,
    {
        match &self.current {
            Some(c) => c.1.value(),
            None => &[],
        }
    }

    fn is_valid(&self) -> (r: bool) {
        match &self.current {
            Some(c) => c.1.is_valid(),
            None => false,
        }
    }

    /// Moves every queued source whose head has the current key past it, in
    /// index order, then the current source, and brings the first head of all
    /// into current. Once exhausted it does nothing. A failure is handed on at
    /// once: when a queued source failed, that source is dropped and current
    /// still exposes the same element, the merge staying usable; when the
    /// current source failed, it stays current and the merge must not be
    /// advanced again.
    fn next(&mut self) -> (r: Result<(), anyhow::Error>)
        ensures
            old(self).stream().len() == 0 ==> r is Ok && final(self).stream().len() == 0,
            r is Err ==> old(self).stream().len() > 0 && final(self).current_source()
                == old(self).current_source() && ({
                let ss = old(self).sources();
                let k = old(self).stream()[0].0;
                let c = old(self).current_source();
                ||| (exists|f: int|
                    0 <= f < ss.len() && f != c && final(self).sources() == #[trigger] drained_until(
                        ss,
                        k,
                        f,
                        c,
                    )) && final(self).wf() && final(self).stream() == seq![old(self).stream()[0]]
                    + merged(drop_key(final(self).sources(), k))
                ||| final(self).sources().len() == ss.len() && forall|i: int|
                    0 <= i < ss.len() && i != c ==> #[trigger] final(self).sources()[i] == drop_key(
                        ss,
                        k,
                    )[i]
            }),
    {
        let ghost ss = self.sources();
        let mut cur = match self.current.take() {
            None => return Ok(()),
            Some(c) => c,
        };
        let ghost k = cur.head_key();
        let ghost c = cur.0 as int;
        let ghost iters0 = self.iters@;
        assert(ss[c] == cur.1.stream());
        assert(old(self).stream().len() > 0);
        let n = self.iters.len();
        let key_ref = cur.1.key();
        let mut j: usize = 0;
        while j < n
            invariant
                n == self.iters@.len(),
                n == ss.len(),
                old(self).stream().len() > 0,
                old(self).sources() == ss,
                old(self).current_source() == c,
                old(self).stream()[0].0 == k,
                ss[c] == cur.1.stream(),
                self.current is None,
                cur.0 == c,
                cur.live(),
                cur.head_key() == k,
                key_ref@ == k,
                0 <= c < n,
                self.iters@[c] is None,
                j <= n,
                self.slots_ok(),
                forall|i: int| 0 <= i < j && i != c ==> #[trigger] Self::slot_stream(self.iters@[i]) == drop_key(ss, k)[i],
                forall|i: int| j <= i < n ==> #[trigger] self.iters@[i] == iters0[i],
                forall|i: int| 0 <= i < n && i != c ==> #[trigger] ss[i] == Self::slot_stream(iters0[i]),
            decreases n - j,
        {
            let is_dup = match &self.iters[j] {
                Some(h) => keys_equal(h.1.key(), key_ref),
                None => false,
            };
            let ghost prev = self.iters@;
            proof {
                assert(ss[j as int] == Self::slot_stream(iters0[j as int]) || j == c);
            }
            if is_dup {
                let mut h = self.iters[j].take().unwrap();
                assert(ss[j as int] == h.1.stream());
                match h.1.next() {
                    Err(e) => {
                        self.current = Some(cur);
                        proof {
                            let dss = drained_until(ss, k, j as int, c);
                            assert forall|i: int| 0 <= i < n implies #[trigger] self.sources()[i] == dss[i] by {
                                if i != c && i != j {
                                    assert(self.iters@[i] == prev[i]);
                                }
                                if j < i && i != c {
                                    assert(ss[i] == Self::slot_stream(iters0[i]));
                                }
                            }
                            assert(self.sources() =~= dss);
                        }
                        return Err(e);
                    },
                    Ok(()) => {
                        if h.1.is_valid() {
                            self.iters[j] = Some(h);
                        } else {
                            assert(h.1.stream() =~= seq![]);
                        }
                    },
                }
            }
            assert(Self::slot_stream(self.iters@[j as int]) == drop_key(ss, k)[j as int] || j == c);
            assert forall|i: int| 0 <= i < j + 1 && i != c implies #[trigger] Self::slot_stream(self.iters@[i]) == drop_key(ss, k)[i] by {
                if i < j {
                    assert(self.iters@[i] == prev[i]);
                }
            }
            j = j + 1;
        }
        match cur.1.next() {
            Err(e) => {
                self.current = Some(cur);
                assert forall|i: int| 0 <= i < n && i != c implies #[trigger] self.sources()[i] == drop_key(ss, k)[i] by {
                    assert(Self::slot_stream(self.iters@[i]) == drop_key(ss, k)[i]);
                }
                return Err(e);
            },
            Ok(()) => {},
        }
        if cur.1.is_valid() {
            self.current = Some(cur);
        }
        assert forall|i: int| 0 <= i < n implies #[trigger] self.sources()[i] == drop_key(ss, k)[i] by {
            assert(Self::slot_stream(self.iters@[i]) == drop_key(ss, k)[i] || i == c);
            if i == c {
                assert(ss[c].len() > 0);
                if self.current is None {
                    assert(ss[c].drop_first() =~= seq![]);
                }
            }
        }
        assert(self.sources() =~= drop_key(ss, k));
        self.settle();
        proof {
            let m = merged(drop_key(ss, k));
            assert((seq![ss[c][0]] + m).drop_first() =~= m);
        }
        Ok(())
    }
}

impl<I: StorageIterator> MergeIterator<I> {
    /// Once settled, the stream is the merge of what the sources hold.
    proof fn lemma_settled_stream(&self)
        requires
            self.wf(),
            self.settled(),
        ensures
            self.stream() == merged(self.sources()),
    {
        let ss = self.sources();
        lemma_pick_range(ss, ss.len() as int);
        if self.current is None {
            assert(forall|j: int| 0 <= j < ss.len() ==> #[trigger] ss[j].len() == 0 || self.iters@[j] is Some);
        }
    }
}

} // verus!

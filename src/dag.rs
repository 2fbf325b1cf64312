//! Arranging the records of an item into generations, parents first.

use vstd::prelude::*;

verus! {

/// A record found in an item's directory: its encoded hash, and the encoded
/// hashes of those of its parents that are present in the same item.
#[derive(Debug)]
pub struct RecordEntry {
    pub name: String,
    pub parents: Vec<String>,
}

pub struct EntryView {
    pub name: Seq<char>,
    pub parents: Seq<Seq<char>>,
}

impl View for RecordEntry {
    type V = EntryView;

    open spec fn view(&self) -> EntryView {
        EntryView { name: self.name@, parents: self.parents@.map_values(|p: String| p@) }
    }
}

pub open spec fn entries_view(s: Seq<RecordEntry>) -> Seq<EntryView> {
    s.map_values(|e: RecordEntry| e@)
}

pub open spec fn entry_names(s: Seq<EntryView>) -> Seq<Seq<char>> {
    s.map_values(|e: EntryView| e.name)
}

/// Every parent of `e` has already been yielded.
pub open spec fn is_ready(e: EntryView, emitted: Seq<Seq<char>>) -> bool {
    forall|i: int| 0 <= i < e.parents.len() ==> emitted.contains(#[trigger] e.parents[i])
}

/// The entries that can be yielded once `emitted` have been, in their order.
pub open spec fn ready_of(s: Seq<EntryView>, emitted: Seq<Seq<char>>) -> Seq<EntryView> {
    s.filter(|e: EntryView| is_ready(e, emitted))
}

/// The entries that still wait for a parent, in their order.
pub open spec fn waiting_of(s: Seq<EntryView>, emitted: Seq<Seq<char>>) -> Seq<EntryView> {
    s.filter(|e: EntryView| !is_ready(e, emitted))
}

proof fn lemma_ready_waiting_len(s: Seq<EntryView>, emitted: Seq<Seq<char>>)
    ensures
        ready_of(s, emitted).len() + waiting_of(s, emitted).len() == s.len(),
    decreases s.len(),
{
    if s.len() > 0 {
        let p = s.drop_last();
        lemma_ready_waiting_len(p, emitted);
        assert(s == p.push(s.last()));
        p.lemma_filter_push(s.last(), |e: EntryView| is_ready(e, emitted));
        p.lemma_filter_push(s.last(), |e: EntryView| !is_ready(e, emitted));
    } else {
        reveal(Seq::filter);
    }
}

#[via_fn]
proof fn generations_from_decreases(remaining: Seq<EntryView>, emitted: Seq<Seq<char>>) {
    lemma_ready_waiting_len(remaining, emitted);
}

/// The generations yielded from `remaining` once `emitted` have been yielded:
/// the ready entries, then the generations of the waiting ones, until none
/// is ready.
pub open spec fn generations_from(remaining: Seq<EntryView>, emitted: Seq<Seq<char>>) -> Seq<Seq<EntryView>>
    decreases remaining.len() via generations_from_decreases
{
    let ready = ready_of(remaining, emitted);
    if ready.len() == 0 {
        Seq::empty()
    } else {
        seq![ready] + generations_from(waiting_of(remaining, emitted), emitted + entry_names(ready))
    }
}

/// Yields the records of an item one generation at a time: a record comes
/// only after every present parent of it has come in an earlier generation.
pub struct ItemRecordIter {
    remaining: Vec<RecordEntry>,
    emitted: Vec<String>,
}

impl ItemRecordIter {
    /// Entries not yielded yet.
    pub closed spec fn remaining_view(&self) -> Seq<EntryView> {
        entries_view(self.remaining@)
    }

    /// Names of the entries yielded so far, in order.
    pub closed spec fn emitted_view(&self) -> Seq<Seq<char>> {
        self.emitted@.map_values(|s: String| s@)
    }

    /// Starts an iteration over a snapshot of an item's records.
    pub fn new(entries: Vec<RecordEntry>) -> (r: Self)
        ensures
            r.remaining_view() == entries_view(entries@),
            r.emitted_view() == Seq::<Seq<char>>::empty(),
    {
        let r = ItemRecordIter { remaining: entries, emitted: Vec::new() };
        assert(r.emitted_view() =~= Seq::<Seq<char>>::empty());
        r
    }

    fn is_emitted(&self, name: &String) -> (r: bool)
        ensures
            r == self.emitted_view().contains(name@),
    {
        let mut i: usize = 0;
        while i < self.emitted.len()
            invariant
                0 <= i <= self.emitted@.len(),
                forall|j: int| 0 <= j < i ==> self.emitted_view()[j] != name@,
            decreases self.emitted@.len() - i,
        {
            if self.emitted[i] == *name {
                assert(self.emitted_view()[i as int] == name@);
                return true;
            }
            i = i + 1;
        }
        false
    }

    fn entry_ready(&self, e: &RecordEntry) -> (r: bool)
        ensures
            r == is_ready(e@, self.emitted_view()),
    {
        let mut i: usize = 0;
        while i < e.parents.len()
            invariant
                0 <= i <= e.parents@.len(),
                forall|j: int| 0 <= j < i ==> self.emitted_view().contains(#[trigger] e@.parents[j]),
            decreases e.parents@.len() - i,
        {
            if !self.is_emitted(&e.parents[i]) {
                assert(e@.parents[i as int] == e.parents@[i as int]@);
                return false;
            }
            i = i + 1;
        }
        true
    }

    /// The next generation: every remaining entry whose parents have all been
    /// yielded, in the order the entries were given. `None` once no entry is
    /// ready, which leaves the iterator as it was.
    pub fn next(&mut self) -> (r: Option<Vec<RecordEntry>>)
        ensures
            ({
                let ready = ready_of(old(self).remaining_view(), old(self).emitted_view());
                &&& r is None <==> ready.len() == 0
                &&& r is None ==> *final(self) == *old(self)
                &&& r is Some ==> {
                    &&& entries_view(r->Some_0@) == ready
                    &&& final(self).remaining_view() == waiting_of(old(self).remaining_view(), old(self).emitted_view())
                    &&& final(self).emitted_view() == old(self).emitted_view() + entry_names(ready)
                    &&& final(self).remaining_view().len() + ready.len() == old(self).remaining_view().len()
                }
            }),
    {
        let ghost orig = self.remaining_view();
        let ghost em = self.emitted_view();
        let n = self.remaining.len();
        let mut ready: Vec<RecordEntry> = Vec::new();
        let mut waiting: Vec<RecordEntry> = Vec::new();
        let mut i: usize = 0;
        while i < n
            invariant
                n == orig.len(),
                em == self.emitted_view(),
                self.remaining@.len() == n,
                self.remaining_view() == orig,
                0 <= i <= n,
                entries_view(ready@) == ready_of(orig.subrange(0, i as int), em),
                entries_view(waiting@) == waiting_of(orig.subrange(0, i as int), em),
                ready@.len() + waiting@.len() == i,
            decreases n - i,
        {
            let ok = self.entry_ready(&self.remaining[i]);
            proof {
                let p = orig.subrange(0, i as int);
                assert(orig.subrange(0, i + 1) =~= p.push(orig[i as int]));
                p.lemma_filter_push(orig[i as int], |e: EntryView| is_ready(e, em));
                p.lemma_filter_push(orig[i as int], |e: EntryView| !is_ready(e, em));
            }
            // Entries are moved out only after the scan, so copy the name and
            // parents here.
            let e = RecordEntry { name: self.remaining[i].name.clone(), parents: clone_names(&self.remaining[i].parents) };
            if ok {
                proof {
                    assert(entries_view(ready@.push(e)) =~= entries_view(ready@).push(e@));
                }
                ready.push(e);
            } else {
                proof {
                    assert(entries_view(waiting@.push(e)) =~= entries_view(waiting@).push(e@));
                }
                waiting.push(e);
            }
            i = i + 1;
        }
        assert(orig.subrange(0, n as int) =~= orig);
        if ready.len() == 0 {
            return None;
        }
        let mut k: usize = 0;
        while k < ready.len()
            invariant
                0 <= k <= ready@.len(),
                self.emitted_view() == em + entry_names(entries_view(ready@)).subrange(0, k as int),
            decreases ready@.len() - k,
        {
            let name = ready[k].name.clone();
            proof {
                assert(entry_names(entries_view(ready@)).subrange(0, k + 1)
                    =~= entry_names(entries_view(ready@)).subrange(0, k as int).push(name@));
                assert(self.emitted@.push(name).map_values(|s: String| s@)
                    =~= self.emitted_view().push(name@));
            }
            self.emitted.push(name);
            k = k + 1;
        }
        assert(entry_names(entries_view(ready@)).subrange(0, ready@.len() as int)
            =~= entry_names(entries_view(ready@)));
        self.remaining = waiting;
        Some(ready)
    }
}

pub open spec fn generations_view(gens: Seq<Vec<RecordEntry>>) -> Seq<Seq<EntryView>> {
    gens.map_values(|g: Vec<RecordEntry>| entries_view(g@))
}

/// `name` is the name of an entry in one of the first `g` generations.
pub open spec fn yielded_before(gens: Seq<Seq<EntryView>>, g: int, name: Seq<char>) -> bool {
    exists|h: int, k: int| 0 <= h < g && 0 <= k < gens[h].len() && #[trigger] gens[h][k].name == name
}

/// All generations of an item's records, from the first to the last. Every
/// generation is non-empty, and every parent of a record in generation `g`
/// is the name of a record in a generation before `g`.
pub fn record_generations(entries: Vec<RecordEntry>) -> (r: Vec<Vec<RecordEntry>>)
    ensures
        generations_view(r@) == generations_from(entries_view(entries@), Seq::empty()),
        forall|g: int| 0 <= g < r@.len() ==> (#[trigger] r@[g])@.len() > 0,
        forall|g: int, k: int, p: int|
            0 <= g < r@.len() && 0 <= k < generations_view(r@)[g].len()
                && 0 <= p < generations_view(r@)[g][k].parents.len()
                ==> yielded_before(generations_view(r@), g, #[trigger] generations_view(r@)[g][k].parents[p]),
{
    let ghost all = generations_from(entries_view(entries@), Seq::empty());
    let mut it = ItemRecordIter::new(entries);
    let mut gens: Vec<Vec<RecordEntry>> = Vec::new();
    assert(generations_view(gens@) =~= Seq::<Seq<EntryView>>::empty());
    assert(Seq::<Seq<EntryView>>::empty() + all =~= all);
    loop
        invariant
            generations_view(gens@) + generations_from(it.remaining_view(), it.emitted_view()) == all,
            forall|g: int| 0 <= g < gens@.len() ==> (#[trigger] gens@[g])@.len() > 0,
            forall|x: Seq<char>| #[trigger] it.emitted_view().contains(x)
                ==> yielded_before(generations_view(gens@), gens@.len() as int, x),
            forall|g: int, k: int, p: int|
                0 <= g < gens@.len() && 0 <= k < generations_view(gens@)[g].len()
                    && 0 <= p < generations_view(gens@)[g][k].parents.len()
                    ==> yielded_before(generations_view(gens@), g, #[trigger] generations_view(gens@)[g][k].parents[p]),
        ensures
            generations_view(gens@) == all,
            forall|g: int| 0 <= g < gens@.len() ==> (#[trigger] gens@[g])@.len() > 0,
            forall|g: int, k: int, p: int|
                0 <= g < gens@.len() && 0 <= k < generations_view(gens@)[g].len()
                    && 0 <= p < generations_view(gens@)[g][k].parents.len()
                    ==> yielded_before(generations_view(gens@), g, #[trigger] generations_view(gens@)[g][k].parents[p]),
        decreases it.remaining_view().len(),
    {
        let ghost em = it.emitted_view();
        let ghost rem = it.remaining_view();
        let ghost gv = generations_view(gens@);
        match it.next() {
            None => {
                assert(ready_of(rem, em).len() == 0);
                assert(generations_from(rem, em) == Seq::<Seq<EntryView>>::empty());
                assert(generations_view(gens@) =~= generations_view(gens@) + generations_from(rem, em));
                break;
            },
            Some(g) => {
                let ghost n = gens@.len() as int;
                let ghost gv2 = generations_view(gens@.push(g));
                proof {
                    assert(gv2 =~= gv.push(entries_view(g@)));
                    let ready = ready_of(rem, em);
                    assert(generations_from(rem, em) == seq![ready] + generations_from(it.remaining_view(), it.emitted_view()));
                    assert(gv2 + generations_from(it.remaining_view(), it.emitted_view())
                        =~= gv + generations_from(rem, em));
                    assert forall|h: int, k: int, x: Seq<char>|
                        0 <= h < n && 0 <= k < gv[h].len() && gv[h][k].name == x
                        implies yielded_before(gv2, n, x) by {
                        assert(gv2[h][k] == gv[h][k]);
                    }
                    assert forall|x: Seq<char>| #[trigger] it.emitted_view().contains(x)
                        implies yielded_before(gv2, n + 1, x) by {
                        let i = choose|i: int| 0 <= i < it.emitted_view().len() && it.emitted_view()[i] == x;
                        if i < em.len() {
                            assert(em[i] == x);
                            assert(em.contains(x));
                            let (h, k) = choose|h: int, k: int| 0 <= h < n && 0 <= k < gv[h].len() && #[trigger] gv[h][k].name == x;
                            assert(gv2[h][k] == gv[h][k]);
                        } else {
                            let k = i - em.len();
                            assert(entry_names(ready)[k] == x);
                            assert(gv2[n][k] == ready[k]);
                        }
                    }
                    assert forall|h: int, k: int, p: int|
                        0 <= h < n + 1 && 0 <= k < gv2[h].len() && 0 <= p < gv2[h][k].parents.len()
                        implies yielded_before(gv2, h, #[trigger] gv2[h][k].parents[p]) by {
                        if h < n {
                            assert(gv2[h] == gv[h]);
                            let x = gv[h][k].parents[p];
                            assert(yielded_before(gv, h, x));
                            let (h2, k2) = choose|h2: int, k2: int| 0 <= h2 < h && 0 <= k2 < gv[h2].len() && #[trigger] gv[h2][k2].name == x;
                            assert(gv2[h2][k2] == gv[h2][k2]);
                        } else {
                            assert(gv2[n] == ready);
                            rem.lemma_filter_pred(|e: EntryView| is_ready(e, em), k);
                            assert(is_ready(ready[k], em));
                            let x = ready[k].parents[p];
                            assert(em.contains(x));
                        }
                    }
                }
                gens.push(g);
            },
        }
    }
    gens
}

/// Names of the records in the last generation: the tips that a new record
/// links to. Empty when there are no generations.
pub fn last_generation_names(gens: &Vec<Vec<RecordEntry>>) -> (r: Vec<String>)
    ensures
        gens@.len() == 0 ==> r@.len() == 0,
        gens@.len() > 0 ==> r@.map_values(|s: String| s@) == entry_names(generations_view(gens@).last()),
{
    let mut r: Vec<String> = Vec::new();
    if gens.len() == 0 {
        return r;
    }
    let last = &gens[gens.len() - 1];
    let ghost lv = entries_view(last@);
    assert(generations_view(gens@).last() == lv);
    let mut i: usize = 0;
    while i < last.len()
        invariant
            0 <= i <= last@.len(),
            lv == entries_view(last@),
            r@.map_values(|s: String| s@) =~= entry_names(lv).subrange(0, i as int),
        decreases last@.len() - i,
    {
        let s = last[i].name.clone();
        proof {
            assert(r@.push(s).map_values(|s: String| s@) =~= r@.map_values(|s: String| s@).push(s@));
            assert(entry_names(lv).subrange(0, i + 1) =~= entry_names(lv).subrange(0, i as int).push(s@));
        }
        r.push(s);
        i = i + 1;
    }
    assert(entry_names(lv).subrange(0, last@.len() as int) =~= entry_names(lv));
    r
}

fn clone_names(v: &Vec<String>) -> (r: Vec<String>)
    ensures
        r@.map_values(|s: String| s@) == v@.map_values(|s: String| s@),
{
    let mut r: Vec<String> = Vec::new();
    let mut i: usize = 0;
    while i < v.len()
        invariant
            0 <= i <= v@.len(),
            r@.map_values(|s: String| s@) =~= v@.subrange(0, i as int).map_values(|s: String| s@),
        decreases v@.len() - i,
    {
        let s = v[i].clone();
        proof {
            assert(v@.subrange(0, i + 1) =~= v@.subrange(0, i as int).push(v@[i as int]));
            assert(r@.push(s).map_values(|s: String| s@) =~= r@.map_values(|s: String| s@).push(s@));
            assert(v@.subrange(0, i + 1).map_values(|s: String| s@)
                =~= v@.subrange(0, i as int).map_values(|s: String| s@).push(v@[i as int]@));
        }
        r.push(s);
        i = i + 1;
    }
    assert(v@.subrange(0, v@.len() as int) =~= v@);
    r
}

} // verus!

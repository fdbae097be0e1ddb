use vstd::prelude::*;

use crate::overlay::same_text;

verus! {

pub open spec fn distinct_keys(es: Seq<(String, String)>) -> bool {
    forall|i: int, j: int| 0 <= i < j < es.len() ==> #[trigger] es[i].0@ != #[trigger] es[j].0@
}

/// The map that a list of `(id, image)` entries with distinct ids stands for.
pub open spec fn entries_map(es: Seq<(String, String)>) -> Map<Seq<char>, Seq<char>> {
    Map::new(
        |k: Seq<char>| exists|i: int| 0 <= i < es.len() && #[trigger] es[i].0@ == k,
        |k: Seq<char>| es[choose|i: int| 0 <= i < es.len() && #[trigger] es[i].0@ == k].1@,
    )
}

/// Images of pinned captures that wait for their window to read them, by pin id.
pub struct PinStore {
    entries: Vec<(String, String)>,
}

proof fn lemma_entry_lookup(es: Seq<(String, String)>, k: int)
    requires
        distinct_keys(es),
        0 <= k < es.len(),
    ensures
        entries_map(es).contains_key(es[k].0@),
        entries_map(es)[es[k].0@] == es[k].1@,
{
    let n = es[k].0@;
    assert(entries_map(es).contains_key(n));
    let c = choose|i: int| 0 <= i < es.len() && #[trigger] es[i].0@ == n;
    if c != k {
        if c < k {
            assert(es[c].0@ != es[k].0@);
        } else {
            assert(es[k].0@ != es[c].0@);
        }
    }
}

proof fn lemma_entries_after_remove(prev: Seq<(String, String)>, i: int)
    requires
        distinct_keys(prev),
        0 <= i < prev.len(),
    ensures
        distinct_keys(prev.remove(i)),
        entries_map(prev.remove(i)) == entries_map(prev).remove(prev[i].0@),
{
    let cur = prev.remove(i);
    let key = prev[i].0@;
    assert forall|a: int, b: int| 0 <= a < b < cur.len() implies #[trigger] cur[a].0@ != #[trigger] cur[b].0@ by {
        let pa = if a < i { a } else { a + 1 };
        let pb = if b < i { b } else { b + 1 };
        assert(cur[a] == prev[pa] && cur[b] == prev[pb]);
    }
    let m1 = entries_map(cur);
    let m2 = entries_map(prev).remove(key);
    assert forall|k: Seq<char>| #[trigger] m1.contains_key(k) == m2.contains_key(k) by {
        if m1.contains_key(k) {
            let c = choose|j: int| 0 <= j < cur.len() && #[trigger] cur[j].0@ == k;
            let pc = if c < i { c } else { c + 1 };
            assert(cur[c] == prev[pc]);
            assert(prev[pc].0@ != key) by {
                if pc < i {
                    assert(prev[pc].0@ != prev[i].0@);
                } else {
                    assert(prev[i].0@ != prev[pc].0@);
                }
            }
        }
        if m2.contains_key(k) {
            let c = choose|j: int| 0 <= j < prev.len() && #[trigger] prev[j].0@ == k;
            assert(c != i);
            let cc = if c < i { c } else { c - 1 };
            assert(cur[cc] == prev[c]);
        }
    }
    assert forall|k: Seq<char>| m1.contains_key(k) implies #[trigger] m1[k] == m2[k] by {
        let c = choose|j: int| 0 <= j < cur.len() && #[trigger] cur[j].0@ == k;
        lemma_entry_lookup(cur, c);
        let pc = if c < i { c } else { c + 1 };
        assert(cur[c] == prev[pc]);
        lemma_entry_lookup(prev, pc);
    }
    assert(m1 =~= m2);
}

proof fn lemma_entries_after_push(prev: Seq<(String, String)>, e: (String, String))
    requires
        distinct_keys(prev),
        !entries_map(prev).contains_key(e.0@),
    ensures
        distinct_keys(prev.push(e)),
        entries_map(prev.push(e)) == entries_map(prev).insert(e.0@, e.1@),
{
    let cur = prev.push(e);
    assert forall|a: int, b: int| 0 <= a < b < cur.len() implies #[trigger] cur[a].0@ != #[trigger] cur[b].0@ by {
        if b == prev.len() {
            assert(cur[a] == prev[a]);
            if prev[a].0@ == e.0@ {
                assert(entries_map(prev).contains_key(e.0@));
            }
        } else {
            assert(cur[a] == prev[a] && cur[b] == prev[b]);
        }
    }
    let m1 = entries_map(cur);
    let m2 = entries_map(prev).insert(e.0@, e.1@);
    assert forall|k: Seq<char>| #[trigger] m1.contains_key(k) == m2.contains_key(k) by {
        if m1.contains_key(k) && k != e.0@ {
            let c = choose|j: int| 0 <= j < cur.len() && #[trigger] cur[j].0@ == k;
            assert(cur[c] == prev[c]);
        }
        if entries_map(prev).contains_key(k) {
            let c = choose|j: int| 0 <= j < prev.len() && #[trigger] prev[j].0@ == k;
            assert(cur[c] == prev[c]);
        }
        if k == e.0@ {
            assert(cur[prev.len() as int].0@ == k);
        }
    }
    assert forall|k: Seq<char>| m1.contains_key(k) implies #[trigger] m1[k] == m2[k] by {
        let c = choose|j: int| 0 <= j < cur.len() && #[trigger] cur[j].0@ == k;
        lemma_entry_lookup(cur, c);
        if c < prev.len() {
            assert(cur[c] == prev[c]);
            lemma_entry_lookup(prev, c);
        }
    }
    assert(m1 =~= m2);
}

impl PinStore {
    #[verifier::type_invariant]
    spec fn inv(self) -> bool {
        distinct_keys(self.entries@)
    }

    /// The images waiting, by pin id.
    pub closed spec fn pending(self) -> Map<Seq<char>, Seq<char>> {
        entries_map(self.entries@)
    }

    pub fn new() -> (r: PinStore)
        ensures
            r.pending() == Map::<Seq<char>, Seq<char>>::empty(),
    {
        let r = PinStore { entries: Vec::new() };
        assert(r.pending() =~= Map::<Seq<char>, Seq<char>>::empty());
        r
    }

    fn position(&self, id: &str) -> (r: Option<usize>)
        ensures
            match r {
                Some(i) => i < self.entries@.len() && self.entries@[i as int].0@ == id@,
                None => !self.pending().contains_key(id@),
            },
    {
        let mut i: usize = 0;
        while i < self.entries.len()
            invariant
                i <= self.entries@.len(),
                forall|j: int| 0 <= j < i ==> self.entries@[j].0@ != id@,
            decreases self.entries@.len() - i,
        {
            if same_text(self.entries[i].0.as_str(), id) {
                return Some(i);
            }
            i += 1;
        }
        None
    }

    /// Keeps `image` for the pin window `id`, replacing any image already kept for it.
    pub fn insert(&mut self, id: String, image: String)
        ensures
            final(self).pending() == old(self).pending().insert(id@, image@),
    {
        proof {
            use_type_invariant(&*self);
        }
        let found = self.position(id.as_str());
        let mut entries: Vec<(String, String)> = Vec::new();
        std::mem::swap(&mut entries, &mut self.entries);
        let ghost prev = entries@;
        match found {
            Some(i) => {
                let ghost key = prev[i as int].0@;
                proof {
                    lemma_entries_after_remove(prev, i as int);
                }
                entries.remove(i);
                assert(entries@ == prev.remove(i as int));
                let ghost mid = entries@;
                let ghost e = (id, image);
                proof {
                    lemma_entries_after_push(mid, e);
                    assert(entries_map(mid).insert(id@, image@) =~= entries_map(prev).insert(id@, image@));
                }
                entries.push((id, image));
            },
            None => {
                let ghost e = (id, image);
                proof {
                    lemma_entries_after_push(prev, e);
                }
                entries.push((id, image));
            },
        }
        self.entries = entries;
    }

    /// Hands out the image kept for `id`, once: it is no longer kept afterwards.
    pub fn take(&mut self, id: &str) -> (r: Option<String>)
        ensures
            match r {
                Some(img) => old(self).pending().contains_key(id@) && img@ == old(self).pending()[id@],
                None => !old(self).pending().contains_key(id@),
            },
            final(self).pending() == old(self).pending().remove(id@),
    {
        proof {
            use_type_invariant(&*self);
        }
        match self.position(id) {
            Some(i) => {
                let mut entries: Vec<(String, String)> = Vec::new();
                std::mem::swap(&mut entries, &mut self.entries);
                let ghost prev = entries@;
                proof {
                    lemma_entry_lookup(prev, i as int);
                    lemma_entries_after_remove(prev, i as int);
                }
                let (_, img) = entries.remove(i);
                self.entries = entries;
                Some(img)
            },
            None => {
                assert(old(self).pending().remove(id@) =~= old(self).pending());
                None
            },
        }
    }
}

/// A pinned image is handed to its window exactly once: taking it right after
/// it was kept gives it back, and taking it again gives nothing.
pub proof fn lemma_pin_taken_once(pending: Map<Seq<char>, Seq<char>>, id: Seq<char>, image: Seq<char>)
    ensures
        pending.insert(id, image).contains_key(id),
        pending.insert(id, image)[id] == image,
        !pending.insert(id, image).remove(id).contains_key(id),
{
}

} // verus!

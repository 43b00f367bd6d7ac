//! The servers that the viewer has connected to, most recent first.
use vstd::prelude::*;
use crate::text::{lemma_trimmed_twice, trim, trimmed};

verus! {

/// Upper bound on remembered entries.
pub const MAX_HISTORY: usize = 8;

/// Text by its characters.
pub open spec fn texts(v: Seq<String>) -> Seq<Seq<char>> {
    Seq::new(v.len(), |i: int| v[i]@)
}

/// Whether text is nothing but white space.
pub open spec fn blank(s: Seq<char>) -> bool {
    trimmed(s).len() == 0
}

/// The entries that are not blank.
pub open spec fn without_blank(h: Seq<Seq<char>>) -> Seq<Seq<char>>
    decreases h.len(),
{
    if h.len() == 0 {
        h
    } else if blank(h.last()) {
        without_blank(h.drop_last())
    } else {
        without_blank(h.drop_last()).push(h.last())
    }
}

/// The entries other than `addr`.
pub open spec fn without(h: Seq<Seq<char>>, addr: Seq<char>) -> Seq<Seq<char>>
    decreases h.len(),
{
    if h.len() == 0 {
        h
    } else if h.last() == addr {
        without(h.drop_last(), addr)
    } else {
        without(h.drop_last(), addr).push(h.last())
    }
}

/// At most as many entries as are remembered.
pub open spec fn capped(h: Seq<Seq<char>>) -> Seq<Seq<char>> {
    if h.len() > MAX_HISTORY {
        h.take(MAX_HISTORY as int)
    } else {
        h
    }
}

/// Whether recording an address changes the history: it is not blank and not
/// already the most recent entry.
pub open spec fn is_news(h: Seq<Seq<char>>, addr: Seq<char>) -> bool {
    !blank(addr) && !(h.len() > 0 && h[0] == trimmed(addr))
}

/// The history after a connection to an address: the address moves to the front.
pub open spec fn recorded(h: Seq<Seq<char>>, addr: Seq<char>) -> Seq<Seq<char>> {
    if is_news(h, addr) {
        capped(seq![trimmed(addr)] + without(h, trimmed(addr)))
    } else {
        h
    }
}

/// Whether no entry is blank.
pub open spec fn none_blank(h: Seq<Seq<char>>) -> bool {
    forall|i: int| 0 <= i < h.len() ==> !blank(#[trigger] h[i])
}

/// Whether one entry stands before another.
pub open spec fn precedes(h: Seq<Seq<char>>, a: Seq<char>, b: Seq<char>) -> bool {
    exists|i: int, j: int| 0 <= i < j < h.len() && #[trigger] h[i] == a && #[trigger] h[j] == b
}

/// Remembered servers, most recent first.
#[derive(Debug)]
pub struct ServerHistory {
    entries: Vec<String>,
}

impl View for ServerHistory {
    type V = Seq<Seq<char>>;

    closed spec fn view(&self) -> Seq<Seq<char>> {
        texts(self.entries@)
    }
}

impl ServerHistory {
    #[verifier::type_invariant]
    spec fn wf(self) -> bool {
        self.entries.len() <= MAX_HISTORY && none_blank(texts(self.entries@))
    }

    /// The history that a file held: its entries without blanks, cut to the greatest
    /// permitted length. Without a readable file the history is empty.
    pub fn load(saved: Option<Vec<String>>) -> (history: Self)
        ensures
            history@ == (match saved {
                Some(list) => capped(without_blank(texts(list@))),
                None => Seq::empty(),
            }),
    {
        let mut entries: Vec<String> = Vec::new();
        if let Some(list) = saved {
            let mut i: usize = 0;
            let ghost all = texts(list@);
            assert(all.take(0) =~= Seq::<Seq<char>>::empty());
            assert(texts(entries@) =~= Seq::<Seq<char>>::empty());
            while i < list.len()
                invariant
                    i <= list.len(),
                    all == texts(list@),
                    texts(entries@) == without_blank(all.take(i as int)),
                decreases list.len() - i,
            {
                assert(all.take(i + 1).drop_last() =~= all.take(i as int));
                let ghost before = texts(entries@);
                if !trim(list[i].as_str()).is_empty() {
                    entries.push(list[i].clone());
                    assert(texts(entries@) =~= before.push(all[i as int]));
                }
                i = i + 1;
            }
            assert(all.take(list.len() as int) =~= all);
            let ghost kept = texts(entries@);
            proof {
                lemma_without_blank(all);
            }
            if entries.len() > MAX_HISTORY {
                entries.truncate(MAX_HISTORY);
                assert(texts(entries@) =~= kept.take(MAX_HISTORY as int));
            }
        }
        assert(saved is None ==> texts(entries@) =~= Seq::<Seq<char>>::empty());
        ServerHistory { entries }
    }

    /// All entries, most recent first.
    pub fn entries(&self) -> (list: &[String])
        ensures
            texts(list@) == self@,
            list@.len() <= MAX_HISTORY,
            none_blank(self@),
    {
        proof {
            use_type_invariant(self);
        }
        self.entries.as_slice()
    }

    /// The most recent entry.
    pub fn last(&self) -> (addr: Option<&str>)
        ensures
            match addr {
                Some(a) => self@.len() > 0 && a@ == self@[0],
                None => self@.len() == 0,
            },
    {
        if self.entries.len() == 0 {
            None
        } else {
            Some(self.entries[0].as_str())
        }
    }

    /// Move an address to the front after a successful connection. Returns whether
    /// the history changed and has to be saved.
    pub fn record(&mut self, addr: &str) -> (changed: bool)
        ensures
            final(self)@ == recorded(old(self)@, addr@),
            changed == is_news(old(self)@, addr@),
    {
        proof {
            use_type_invariant(&*self);
            lemma_recorded(self@, addr@);
        }
        let ghost h = self@;
        let addr = trim(addr);
        if addr.is_empty() {
            return false;
        }
        let addr = addr.to_owned();
        if self.entries.len() > 0 && self.entries[0] == addr {
            return false;
        }
        let mut entries: Vec<String> = Vec::new();
        entries.push(addr.clone());
        let ghost a = addr@;
        let mut i: usize = 0;
        assert(h.take(0) =~= Seq::<Seq<char>>::empty());
        assert(texts(entries@) =~= seq![a] + without(h.take(0), a));
        while i < self.entries.len()
            invariant
                i <= self.entries.len(),
                h == texts(self.entries@),
                a == addr@,
                texts(entries@) == seq![a] + without(h.take(i as int), a),
            decreases self.entries.len() - i,
        {
            assert(h.take(i + 1).drop_last() =~= h.take(i as int));
            let ghost before = texts(entries@);
            if self.entries[i] != addr {
                entries.push(self.entries[i].clone());
                assert(texts(entries@) =~= before.push(h[i as int]));
                assert(texts(entries@) =~= seq![a] + without(h.take(i + 1), a));
            }
            i = i + 1;
        }
        assert(h.take(h.len() as int) =~= h);
        let ghost all = texts(entries@);
        if entries.len() > MAX_HISTORY {
            entries.truncate(MAX_HISTORY);
            assert(texts(entries@) =~= all.take(MAX_HISTORY as int));
        }
        self.entries = entries;
        true
    }
}

impl Default for ServerHistory {
    fn default() -> (history: Self)
        ensures
            history@ == Seq::<Seq<char>>::empty(),
    {
        ServerHistory::load(None)
    }
}

impl Clone for ServerHistory {
    fn clone(&self) -> (copy: Self)
        ensures
            copy@ == self@,
    {
        proof {
            use_type_invariant(self);
        }
        let mut entries: Vec<String> = Vec::new();
        while entries.len() < self.entries.len()
            invariant
                entries.len() <= self.entries.len(),
                forall|i: int| 0 <= i < entries.len() ==> entries@[i]@ == self.entries@[i]@,
            decreases self.entries.len() - entries.len(),
        {
            entries.push(self.entries[entries.len()].clone());
        }
        assert(texts(entries@) =~= texts(self.entries@));
        ServerHistory { entries }
    }
}

proof fn lemma_without_blank(h: Seq<Seq<char>>)
    ensures
        none_blank(without_blank(h)),
    decreases h.len(),
{
    if h.len() > 0 {
        lemma_without_blank(h.drop_last());
    }
}

proof fn lemma_without_order(h: Seq<Seq<char>>, addr: Seq<char>)
    ensures
        forall|i: int, j: int|
            0 <= i < j < without(h, addr).len() ==> precedes(
                h,
                #[trigger] without(h, addr)[i],
                #[trigger] without(h, addr)[j],
            ),
    decreases h.len(),
{
    if h.len() > 0 {
        let init = h.drop_last();
        lemma_without_order(init, addr);
        lemma_without(init, addr);
        let rest = without(init, addr);
        let all = without(h, addr);
        assert forall|i: int, j: int| 0 <= i < j < all.len() implies precedes(
            h,
            #[trigger] all[i],
            #[trigger] all[j],
        ) by {
            assert(all[i] == rest[i]);
            if j < rest.len() {
                assert(all[j] == rest[j]);
                assert(precedes(init, rest[i], rest[j]));
                let (a, b) = choose|a: int, b: int|
                    0 <= a < b < init.len() && #[trigger] init[a] == rest[i] && #[trigger] init[b]
                        == rest[j];
                assert(h[a] == all[i] && h[b] == all[j]);
            } else {
                assert(init.contains(rest[i]));
                let a = choose|a: int| 0 <= a < init.len() && init[a] == rest[i];
                assert(h[a] == all[i] && h[h.len() - 1] == all[j]);
            }
        }
    }
}

proof fn lemma_without(h: Seq<Seq<char>>, addr: Seq<char>)
    ensures
        without(h, addr).len() <= h.len(),
        forall|i: int| 0 <= i < without(h, addr).len() ==> without(h, addr)[i] != addr,
        forall|i: int|
            0 <= i < without(h, addr).len() ==> h.contains(#[trigger] without(h, addr)[i]),
        h.no_duplicates() ==> without(h, addr).no_duplicates(),
    decreases h.len(),
{
    if h.len() > 0 {
        let init = h.drop_last();
        lemma_without(init, addr);
        let rest = without(init, addr);
        assert forall|i: int| 0 <= i < without(h, addr).len() implies h.contains(
            #[trigger] without(h, addr)[i],
        ) by {
            if i < rest.len() {
                assert(init.contains(rest[i]));
                let k = choose|k: int| 0 <= k < init.len() && init[k] == rest[i];
                assert(h[k] == rest[i]);
            } else {
                assert(h[h.len() - 1] == h.last());
            }
        }
        if h.no_duplicates() && h.last() != addr {
            assert forall|i: int| 0 <= i < rest.len() implies rest[i] != h.last() by {
                assert(init.contains(rest[i]));
                let k = choose|k: int| 0 <= k < init.len() && init[k] == rest[i];
                assert(h[k] != h[h.len() - 1]);
            }
        }
    }
}

/// Recording keeps the history short, without duplicates and without blanks; a
/// recorded address is the most recent one, and the others stand in the order in
/// which they stood.
pub proof fn lemma_recorded(h: Seq<Seq<char>>, addr: Seq<char>)
    requires
        h.len() <= MAX_HISTORY,
    ensures
        recorded(h, addr).len() <= MAX_HISTORY,
        h.no_duplicates() ==> recorded(h, addr).no_duplicates(),
        none_blank(h) ==> none_blank(recorded(h, addr)),
        !blank(addr) ==> recorded(h, addr).len() > 0 && recorded(h, addr)[0] == trimmed(addr),
        blank(addr) ==> recorded(h, addr) == h,
        forall|i: int, j: int|
            1 <= i < j < recorded(h, addr).len() ==> precedes(
                h,
                #[trigger] recorded(h, addr)[i],
                #[trigger] recorded(h, addr)[j],
            ),
{
    let front = trimmed(addr);
    let rest = without(h, front);
    lemma_without(h, front);
    lemma_without_order(h, front);
    lemma_trimmed_twice(addr);
    let fresh = seq![front] + rest;
    let after = recorded(h, addr);
    if h.no_duplicates() {
        assert(fresh.no_duplicates());
    }
    if none_blank(h) {
        assert forall|i: int| 0 <= i < after.len() implies !blank(#[trigger] after[i]) by {
            if is_news(h, addr) && i > 0 {
                assert(after[i] == rest[i - 1]);
                assert(h.contains(rest[i - 1]));
            }
        }
    }
    assert forall|i: int, j: int| 1 <= i < j < after.len() implies precedes(
        h,
        #[trigger] after[i],
        #[trigger] after[j],
    ) by {
        if is_news(h, addr) {
            assert(after[i] == rest[i - 1] && after[j] == rest[j - 1]);
        }
    }
}

} // verus!

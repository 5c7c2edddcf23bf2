//! Vector identifiers and the directory that maps each live identifier to
//! the inverted list that holds it.

use std::collections::HashMap;
use vstd::prelude::*;

verus! {

broadcast use vstd::std_specs::hash::group_hash_axioms;

/// Identifier of a stored vector: a 64-bit integer or an opaque byte key.
///
/// Mirrors `iqdb_types::VectorId`.
#[derive(Debug, Clone, PartialEq, Eq, Hash)]
pub enum ItemId {
    /// An integer identifier.
    U64(u64),
    /// A byte-string identifier.
    Bytes(Vec<u8>),
}

/// The mathematical value of an [`ItemId`].
pub enum IdView {
    /// An integer identifier.
    U64(u64),
    /// A byte-string identifier.
    Bytes(Seq<u8>),
}

impl View for ItemId {
    type V = IdView;

    open spec fn view(&self) -> IdView {
        match self {
            ItemId::U64(n) => IdView::U64(*n),
            ItemId::Bytes(b) => IdView::Bytes(b@),
        }
    }
}

/// Byte-wise equality of two byte strings.
fn bytes_equal(a: &Vec<u8>, b: &Vec<u8>) -> (r: bool)
    ensures
        r == (a@ == b@),
{
    if a.len() != b.len() {
        return false;
    }
    let mut i: usize = 0;
    while i < a.len()
        invariant
            a@.len() == b@.len(),
            i <= a@.len(),
            forall|j: int| 0 <= j < i ==> a@[j] == b@[j],
        decreases a@.len() - i,
    {
        if a[i] != b[i] {
            return false;
        }
        i = i + 1;
    }
    assert(a@ =~= b@);
    true
}

/// A copy of a byte string.
fn copy_bytes(a: &Vec<u8>) -> (r: Vec<u8>)
    ensures
        r@ == a@,
{
    let mut out: Vec<u8> = Vec::new();
    let mut i: usize = 0;
    while i < a.len()
        invariant
            i <= a@.len(),
            out@ == a@.subrange(0, i as int),
        decreases a@.len() - i,
    {
        out.push(a[i]);
        i = i + 1;
        assert(out@ =~= a@.subrange(0, i as int));
    }
    assert(a@.subrange(0, a@.len() as int) =~= a@);
    out
}

impl ItemId {
    /// A copy of this identifier with the same value.
    pub fn duplicate(&self) -> (r: ItemId)
        ensures
            r@ == self@,
    {
        match self {
            ItemId::U64(n) => ItemId::U64(*n),
            ItemId::Bytes(b) => ItemId::Bytes(copy_bytes(b)),
        }
    }

    /// Whether two identifiers are equal.
    pub fn equals(&self, other: &ItemId) -> (r: bool)
        ensures
            r == (self@ == other@),
    {
        match (self, other) {
            (ItemId::U64(a), ItemId::U64(b)) => *a == *b,
            (ItemId::Bytes(a), ItemId::Bytes(b)) => bytes_equal(a, b),
            _ => false,
        }
    }
}

/// Maps each live identifier to the inverted list that holds it.
///
/// Integer identifiers are kept in a hash map; byte-string identifiers in
/// an association list.
pub struct IdDirectory {
    by_u64: HashMap<u64, usize>,
    by_bytes: Vec<(Vec<u8>, usize)>,
}

impl IdDirectory {
    /// The directory as a map from identifier to list.
    pub closed spec fn map(&self) -> Map<IdView, usize> {
        Map::new(
            |k: IdView| match k {
                IdView::U64(n) => self.by_u64@.contains_key(n),
                IdView::Bytes(b) => exists|j: int| 0 <= j < self.by_bytes@.len() && #[trigger] self.by_bytes@[j].0@ == b,
            },
            |k: IdView| match k {
                IdView::U64(n) => self.by_u64@[n],
                IdView::Bytes(b) => {
                    let j = choose|j: int| 0 <= j < self.by_bytes@.len() && #[trigger] self.by_bytes@[j].0@ == b;
                    self.by_bytes@[j].1
                },
            },
        )
    }

    /// The byte-string keys are pairwise distinct.
    pub closed spec fn wf(&self) -> bool {
        forall|i: int, j: int|
            0 <= i < j < self.by_bytes@.len() ==> #[trigger] self.by_bytes@[i].0@ != #[trigger] self.by_bytes@[j].0@
    }

    /// An empty directory.
    pub fn new() -> (r: IdDirectory)
        ensures
            r.wf(),
            r.map() == Map::<IdView, usize>::empty(),
    {
        let r = IdDirectory { by_u64: HashMap::new(), by_bytes: Vec::new() };
        assert(r.map() =~= Map::<IdView, usize>::empty());
        r
    }

    /// Position of a byte key in the association list.
    fn find_bytes(&self, b: &Vec<u8>) -> (r: Option<usize>)
        requires
            self.wf(),
        ensures
            match r {
                Some(j) => j < self.by_bytes@.len() && self.by_bytes@[j as int].0@ == b@,
                None => forall|j: int| 0 <= j < self.by_bytes@.len() ==> #[trigger] self.by_bytes@[j].0@ != b@,
            },
    {
        let mut j: usize = 0;
        while j < self.by_bytes.len()
            invariant
                j <= self.by_bytes@.len(),
                forall|q: int| 0 <= q < j ==> #[trigger] self.by_bytes@[q].0@ != b@,
            decreases self.by_bytes@.len() - j,
        {
            if bytes_equal(&self.by_bytes[j].0, b) {
                return Some(j);
            }
            j = j + 1;
        }
        None
    }

    /// The list that holds `id`, if `id` is present.
    pub fn get(&self, id: &ItemId) -> (r: Option<usize>)
        requires
            self.wf(),
        ensures
            match r {
                Some(c) => self.map().contains_key(id@) && self.map()[id@] == c,
                None => !self.map().contains_key(id@),
            },
    {
        match id {
            ItemId::U64(n) => {
                match self.by_u64.get(n) {
                    Some(c) => Some(*c),
                    None => None,
                }
            },
            ItemId::Bytes(b) => {
                match self.find_bytes(b) {
                    Some(j) => {
                        let ghost bv = b@;
                        proof {
                            let w = choose|w: int| 0 <= w < self.by_bytes@.len() && #[trigger] self.by_bytes@[w].0@ == bv;
                            if w != j {
                                if w < j {
                                    assert(self.by_bytes@[w].0@ != self.by_bytes@[j as int].0@);
                                } else {
                                    assert(self.by_bytes@[j as int].0@ != self.by_bytes@[w].0@);
                                }
                            }
                        }
                        Some(self.by_bytes[j].1)
                    },
                    None => None,
                }
            },
        }
    }

    /// Record that `id` lives in list `c`; `id` must not be present yet.
    pub fn insert(&mut self, id: &ItemId, c: usize)
        requires
            old(self).wf(),
            !old(self).map().contains_key(id@),
        ensures
            final(self).wf(),
            final(self).map() == old(self).map().insert(id@, c),
    {
        let ghost old_map = self.map();
        match id {
            ItemId::U64(n) => {
                let _prev = self.by_u64.insert(*n, c);
                proof {
                    assert(self.by_bytes@ == old(self).by_bytes@);
                    assert(self.map() =~= old_map.insert(id@, c));
                }
            },
            ItemId::Bytes(b) => {
                let ghost old_bytes = self.by_bytes@;
                let copy = copy_bytes(b);
                self.by_bytes.push((copy, c));
                proof {
                    let last = old_bytes.len() as int;
                    assert(self.by_bytes@[last].0@ == b@);
                    assert forall|i: int, j: int|
                        0 <= i < j < self.by_bytes@.len() implies #[trigger] self.by_bytes@[i].0@ != #[trigger] self.by_bytes@[j].0@ by {
                        if j == last {
                            assert(self.by_bytes@[i] == old_bytes[i]);
                            assert(!old_map.contains_key(IdView::Bytes(b@)));
                        } else {
                            assert(self.by_bytes@[i] == old_bytes[i]);
                            assert(self.by_bytes@[j] == old_bytes[j]);
                        }
                    }
                    assert forall|k: IdView| #[trigger] self.map().contains_key(k) <==> old_map.insert(id@, c).contains_key(k) by {
                        match k {
                            IdView::U64(n) => {},
                            IdView::Bytes(kb) => {
                                if kb == b@ {
                                    assert(self.by_bytes@[last].0@ == kb);
                                } else if self.map().contains_key(k) {
                                    let w = choose|w: int| 0 <= w < self.by_bytes@.len() && #[trigger] self.by_bytes@[w].0@ == kb;
                                    assert(w != last);
                                    assert(old_bytes[w].0@ == kb);
                                } else if old_map.contains_key(k) {
                                    let w = choose|w: int| 0 <= w < old_bytes.len() && #[trigger] old_bytes[w].0@ == kb;
                                    assert(self.by_bytes@[w].0@ == kb);
                                }
                            },
                        }
                    }
                    assert forall|k: IdView| #[trigger] self.map().contains_key(k) implies self.map()[k] == old_map.insert(id@, c)[k] by {
                        match k {
                            IdView::U64(n) => {},
                            IdView::Bytes(kb) => {
                                let w = choose|w: int| 0 <= w < self.by_bytes@.len() && #[trigger] self.by_bytes@[w].0@ == kb;
                                if kb == b@ {
                                    if w != last {
                                        assert(self.by_bytes@[w].0@ != self.by_bytes@[last].0@);
                                    }
                                } else {
                                    assert(w != last);
                                    assert(old_bytes[w].0@ == kb);
                                    let w0 = choose|w0: int| 0 <= w0 < old_bytes.len() && #[trigger] old_bytes[w0].0@ == kb;
                                    if w0 != w {
                                        if w0 < w {
                                            assert(old_bytes[w0].0@ != old_bytes[w].0@);
                                        } else {
                                            assert(old_bytes[w].0@ != old_bytes[w0].0@);
                                        }
                                    }
                                }
                            },
                        }
                    }
                    assert(self.map() =~= old_map.insert(id@, c));
                }
            },
        }
    }

    /// Forget `id`; returns the list it lived in, or `None` when it was not
    /// present (the directory is then unchanged).
    pub fn remove(&mut self, id: &ItemId) -> (r: Option<usize>)
        requires
            old(self).wf(),
        ensures
            final(self).wf(),
            match r {
                Some(c) => old(self).map().contains_key(id@) && old(self).map()[id@] == c
                    && final(self).map() == old(self).map().remove(id@),
                None => !old(self).map().contains_key(id@) && final(self).map() == old(self).map(),
            },
    {
        let ghost old_map = self.map();
        match id {
            ItemId::U64(n) => {
                let r = self.by_u64.remove(n);
                proof {
                    assert(self.by_bytes@ == old(self).by_bytes@);
                    assert(self.map() =~= (match r { Some(_) => old_map.remove(id@), None => old_map }));
                }
                r
            },
            ItemId::Bytes(b) => {
                match self.find_bytes(b) {
                    None => {
                        proof {
                            assert(!old_map.contains_key(id@));
                        }
                        None
                    },
                    Some(j) => {
                        let ghost old_bytes = self.by_bytes@;
                        let ghost bv = b@;
                        proof {
                            assert(old_map.contains_key(id@));
                            let w = choose|w: int| 0 <= w < old_bytes.len() && #[trigger] old_bytes[w].0@ == bv;
                            if w != j {
                                if w < j {
                                    assert(old_bytes[w].0@ != old_bytes[j as int].0@);
                                } else {
                                    assert(old_bytes[j as int].0@ != old_bytes[w].0@);
                                }
                            }
                            assert(old_map[id@] == old_bytes[j as int].1);
                        }
                        let removed = self.by_bytes.remove(j);
                        proof {
                            let nb = self.by_bytes@;
                            assert(nb =~= old_bytes.remove(j as int));
                            assert forall|i: int, k: int|
                                0 <= i < k < nb.len() implies #[trigger] nb[i].0@ != #[trigger] nb[k].0@ by {
                                let oi = if i < j { i } else { i + 1 };
                                let ok = if k < j { k } else { k + 1 };
                                assert(nb[i] == old_bytes[oi]);
                                assert(nb[k] == old_bytes[ok]);
                            }
                            let target = old_map.remove(id@);
                            assert forall|key: IdView| #[trigger] self.map().contains_key(key) <==> target.contains_key(key) by {
                                match key {
                                    IdView::U64(m) => {},
                                    IdView::Bytes(kb) => {
                                        if self.map().contains_key(key) {
                                            let w = choose|w: int| 0 <= w < nb.len() && #[trigger] nb[w].0@ == kb;
                                            let ow = if w < j { w } else { w + 1 };
                                            assert(old_bytes[ow].0@ == kb);
                                            assert(ow != j);
                                            if kb == bv {
                                                if ow < j {
                                                    assert(old_bytes[ow].0@ != old_bytes[j as int].0@);
                                                } else {
                                                    assert(old_bytes[j as int].0@ != old_bytes[ow].0@);
                                                }
                                            }
                                        }
                                        if target.contains_key(key) {
                                            let w = choose|w: int| 0 <= w < old_bytes.len() && #[trigger] old_bytes[w].0@ == kb;
                                            assert(w != j);
                                            let nw = if w < j { w } else { w - 1 };
                                            assert(nb[nw].0@ == kb);
                                        }
                                    },
                                }
                            }
                            assert forall|key: IdView| #[trigger] self.map().contains_key(key) implies self.map()[key] == target[key] by {
                                match key {
                                    IdView::U64(m) => {},
                                    IdView::Bytes(kb) => {
                                        let w = choose|w: int| 0 <= w < nb.len() && #[trigger] nb[w].0@ == kb;
                                        let ow = if w < j { w } else { w + 1 };
                                        assert(old_bytes[ow].0@ == kb);
                                        let w0 = choose|w0: int| 0 <= w0 < old_bytes.len() && #[trigger] old_bytes[w0].0@ == kb;
                                        if w0 != ow {
                                            if w0 < ow {
                                                assert(old_bytes[w0].0@ != old_bytes[ow].0@);
                                            } else {
                                                assert(old_bytes[ow].0@ != old_bytes[w0].0@);
                                            }
                                        }
                                    },
                                }
                            }
                            assert(self.map() =~= target);
                        }
                        Some(removed.1)
                    },
                }
            },
        }
    }
}

} // verus!

//! The files that a cache is saved to and restored from, held as byte
//! images under their paths.
use vstd::prelude::*;

verus! {

/// Byte images saved under paths. A program that keeps them in files reads
/// them in before building a cache and writes them out after a shutdown.
pub struct Storage {
    pub files: Vec<(String, Vec<u8>)>,
}

impl Storage {
    /// No path holds two images.
    pub open spec fn wf(&self) -> bool {
        forall|i: int, j: int|
            0 <= i < self.files@.len() && 0 <= j < self.files@.len() && i != j
                ==> #[trigger] self.files@[i].0@ != #[trigger] self.files@[j].0@
    }

    /// The image saved under each path.
    pub open spec fn images(&self) -> Map<Seq<char>, Seq<u8>> {
        Map::new(
            |p: Seq<char>| exists|i: int| 0 <= i < self.files@.len() && self.files@[i].0@ == p,
            |p: Seq<char>|
                self.files@[choose|i: int| 0 <= i < self.files@.len() && self.files@[i].0@ == p].1@,
        )
    }

    /// An empty storage.
    pub fn new() -> (r: Storage)
        ensures
            r.wf(),
            r.images() == Map::<Seq<char>, Seq<u8>>::empty(),
    {
        let r = Storage { files: Vec::new() };
        assert(r.images() =~= Map::<Seq<char>, Seq<u8>>::empty());
        r
    }

    /// Finds the position of the image saved under `path`.
    fn position(&self, path: &String) -> (r: Option<usize>)
        requires
            self.wf(),
        ensures
            match r {
                Some(i) => i < self.files@.len() && self.files@[i as int].0@ == path@,
                None => !self.images().contains_key(path@),
            },
    {
        let mut i: usize = 0;
        while i < self.files.len()
            invariant
                i <= self.files@.len(),
                forall|j: int| 0 <= j < i ==> #[trigger] self.files@[j].0@ != path@,
            decreases self.files@.len() - i,
        {
            if self.files[i].0 == *path {
                return Some(i);
            }
            i = i + 1;
        }
        None
    }

    /// A copy of the image saved under `path`, if any.
    pub fn read(&self, path: &String) -> (r: Option<Vec<u8>>)
        requires
            self.wf(),
        ensures
            match r {
                Some(bytes) => self.images().contains_key(path@) && bytes@ == self.images()[path@],
                None => !self.images().contains_key(path@),
            },
    {
        match self.position(path) {
            None => None,
            Some(i) => {
                proof {
                    let j = choose|j: int| 0 <= j < self.files@.len() && self.files@[j].0@ == path@;
                    if j != i {
                        assert(self.files@[j].0@ != self.files@[i as int].0@);
                    }
                }
                Some(self.files[i].1.clone())
            },
        }
    }

    /// Saves `bytes` under `path`, replacing the image saved there before.
    pub fn write(&mut self, path: &String, bytes: Vec<u8>)
        requires
            old(self).wf(),
        ensures
            final(self).wf(),
            final(self).images() == old(self).images().insert(path@, bytes@),
    {
        let entry = (path.clone(), bytes);
        let ghost w: int;
        match self.position(path) {
            Some(i) => {
                self.files.set(i, entry);
                proof {
                    w = i as int;
                }
            },
            None => {
                self.files.push(entry);
                proof {
                    w = old(self).files@.len() as int;
                }
            },
        }
        proof {
            assert(self.files@[w].0@ == path@);
            let a = old(self).images();
            let b = self.images();
            assert forall|p: Seq<char>| #[trigger] b.contains_key(p) == a.insert(path@, bytes@).contains_key(p) by {
                if a.contains_key(p) {
                    let j = choose|j: int| 0 <= j < old(self).files@.len() && old(self).files@[j].0@ == p;
                    if p != path@ {
                        assert(self.files@[j] == old(self).files@[j]);
                    }
                }
                if b.contains_key(p) && p != path@ {
                    let j = choose|j: int| 0 <= j < self.files@.len() && self.files@[j].0@ == p;
                    assert(old(self).files@[j] == self.files@[j]);
                }
            }
            assert forall|p: Seq<char>| #[trigger] b.contains_key(p) implies b[p] == a.insert(path@, bytes@)[p] by {
                let j = choose|j: int| 0 <= j < self.files@.len() && self.files@[j].0@ == p;
                if p != path@ {
                    assert(old(self).files@[j] == self.files@[j]);
                    let k = choose|k: int| 0 <= k < old(self).files@.len() && old(self).files@[k].0@ == p;
                    if k != j {
                        assert(old(self).files@[k].0@ != old(self).files@[j].0@);
                    }
                } else {
                    let k = self.files@.len() - 1;
                    if j != k && self.files@.len() > old(self).files@.len() {
                        assert(self.files@[j] == old(self).files@[j]);
                    }
                }
            }
            assert(b =~= a.insert(path@, bytes@));
        }
    }
}

} // verus!

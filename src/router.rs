//! A flat route list keyed by exact path and method, for applications that
//! need no parameters.
use vstd::prelude::*;

use crate::method::Method;

verus! {

/// Routes keyed by exact path and method; each key appears at most once.
pub struct Routes<H> {
    routes: Vec<(String, Method, H)>,
}

impl<H> Routes<H> {
    /// The key of the entry at index `i`.
    pub closed spec fn key_at(&self, i: int) -> (Seq<char>, Method) {
        (self.routes@[i].0@, self.routes@[i].1)
    }

    /// Each key appears at most once.
    pub closed spec fn wf(&self) -> bool {
        forall|i: int, j: int|
            0 <= i < j < self.routes@.len() ==> #[trigger] self.key_at(i) != #[trigger] self.key_at(j)
    }

    /// The routes as a map from (path, method) to handler.
    pub closed spec fn view(&self) -> Map<(Seq<char>, Method), H> {
        Map::new(
            |k: (Seq<char>, Method)| exists|i: int| 0 <= i < self.routes@.len() && self.key_at(i) == k,
            |k: (Seq<char>, Method)|
                self.routes@[choose|i: int| 0 <= i < self.routes@.len() && self.key_at(i) == k].2,
        )
    }

    /// In a well-formed list, the entry at index `i` is what the map holds
    /// for its key.
    proof fn lemma_view_at(&self, i: int)
        requires
            self.wf(),
            0 <= i < self.routes@.len(),
        ensures
            self.view().contains_key(self.key_at(i)),
            self.view()[self.key_at(i)] == self.routes@[i].2,
    {
        let k = self.key_at(i);
        assert(self.view().contains_key(k));
        let j = choose|j: int| 0 <= j < self.routes@.len() && self.key_at(j) == k;
        if j < i {
            assert(self.key_at(j) != self.key_at(i));
        } else if i < j {
            assert(self.key_at(i) != self.key_at(j));
        }
    }

    /// No routes.
    pub fn new() -> (r: Self)
        ensures
            r.wf(),
            r.view() == Map::<(Seq<char>, Method), H>::empty(),
    {
        let r = Routes { routes: Vec::new() };
        assert(r.view() =~= Map::<(Seq<char>, Method), H>::empty());
        r
    }

    /// The index of the entry for `uri` and `method`.
    fn find(&self, uri: &String, method: Method) -> (r: Option<usize>)
        ensures
            match r {
                Some(i) => i < self.routes@.len() && self.key_at(i as int) == (uri@, method),
                None => forall|i: int| 0 <= i < self.routes@.len() ==> self.key_at(i) != (uri@, method),
            },
    {
        let mut i: usize = 0;
        while i < self.routes.len()
            invariant
                i <= self.routes@.len(),
                forall|j: int| 0 <= j < i ==> self.key_at(j) != (uri@, method),
            decreases self.routes@.len() - i,
        {
            let same_path = self.routes[i].0 == *uri;
            if same_path && self.routes[i].1 == method {
                return Some(i);
            }
            i = i + 1;
        }
        None
    }

    /// The handler for requests of `method` on exactly `uri`.
    pub fn get(&self, uri: &str, method: Method) -> (r: Option<&H>)
        requires
            self.wf(),
        ensures
            match r {
                Some(h) => self.view().contains_key((uri@, method)) && self.view()[(uri@, method)]
                    == *h,
                None => !self.view().contains_key((uri@, method)),
            },
    {
        let key = uri.to_owned();
        match self.find(&key, method) {
            Some(i) => {
                proof {
                    self.lemma_view_at(i as int);
                }
                Some(&self.routes[i].2)
            },
            None => None,
        }
    }

    /// Binds `fn_ptr` to requests of `method` on exactly `uri`, replacing
    /// any handler bound there before.
    pub fn add(&mut self, uri: &str, method: Method, fn_ptr: H)
        requires
            old(self).wf(),
        ensures
            final(self).wf(),
            final(self).view() == old(self).view().insert((uri@, method), fn_ptr),
    {
        let ghost k = (uri@, method);
        let ghost before = *self;
        let key = uri.to_owned();
        match self.find(&key, method) {
            Some(i) => {
                let (path, m, _) = self.routes.remove(i);
                self.routes.insert(i, (path, m, fn_ptr));
                assert forall|j: int| 0 <= j < self.routes@.len() implies #[trigger] self.key_at(j)
                    == before.key_at(j) by {}
                assert forall|j1: int, j2: int|
                    0 <= j1 < j2 < self.routes@.len() implies #[trigger] self.key_at(j1)
                    != #[trigger] self.key_at(j2) by {
                    assert(before.key_at(j1) != before.key_at(j2));
                }
                assert forall|k2: (Seq<char>, Method)| #[trigger]
                    self.view().contains_key(k2) == before.view().insert(k, fn_ptr).contains_key(k2)
                    by {
                    if before.view().contains_key(k2) {
                        let j = choose|j: int| 0 <= j < before.routes@.len() && before.key_at(j) == k2;
                        assert(self.key_at(j) == k2);
                    }
                    if self.view().contains_key(k2) {
                        let j = choose|j: int| 0 <= j < self.routes@.len() && self.key_at(j) == k2;
                        assert(before.key_at(j) == k2);
                    }
                }
                assert forall|k2: (Seq<char>, Method)| #[trigger] self.view().contains_key(k2)
                    implies self.view()[k2] == before.view().insert(k, fn_ptr)[k2] by {
                    let j = choose|j: int| 0 <= j < self.routes@.len() && self.key_at(j) == k2;
                    self.lemma_view_at(j);
                    if j != i {
                        before.lemma_view_at(j);
                    }
                }
                assert(self.view() =~= before.view().insert(k, fn_ptr));
            },
            None => {
                self.routes.push((key, method, fn_ptr));
                let ghost n = before.routes@.len() as int;
                assert forall|j: int| 0 <= j < n implies #[trigger] self.key_at(j)
                    == before.key_at(j) by {}
                assert(self.key_at(n) == k);
                assert forall|j1: int, j2: int|
                    0 <= j1 < j2 < self.routes@.len() implies #[trigger] self.key_at(j1)
                    != #[trigger] self.key_at(j2) by {
                    if j2 < n {
                        assert(before.key_at(j1) != before.key_at(j2));
                    }
                }
                assert forall|k2: (Seq<char>, Method)| #[trigger]
                    self.view().contains_key(k2) == before.view().insert(k, fn_ptr).contains_key(k2)
                    by {
                    if before.view().contains_key(k2) {
                        let j = choose|j: int| 0 <= j < before.routes@.len() && before.key_at(j) == k2;
                        assert(self.key_at(j) == k2);
                    }
                    if self.view().contains_key(k2) && k2 != k {
                        let j = choose|j: int| 0 <= j < self.routes@.len() && self.key_at(j) == k2;
                        assert(before.key_at(j) == k2);
                    }
                }
                assert forall|k2: (Seq<char>, Method)| #[trigger] self.view().contains_key(k2)
                    implies self.view()[k2] == before.view().insert(k, fn_ptr)[k2] by {
                    let j = choose|j: int| 0 <= j < self.routes@.len() && self.key_at(j) == k2;
                    self.lemma_view_at(j);
                    if j != n {
                        before.lemma_view_at(j);
                    }
                }
                assert(self.view() =~= before.view().insert(k, fn_ptr));
            },
        }
    }
}

} // verus!

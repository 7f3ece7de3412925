//! The protocol that keeps a boundary's error collection in step with the
//! render tree's current failure state.
//!
//! A fallible node hands its result to [`RenderContext::render_result`]
//! together with the stable identity of its render position. On success any
//! stale entry at that position is removed and the value renders normally;
//! on failure the error is stored under the position's key and the node
//! renders as an empty placeholder, the ancestor boundary being responsible
//! for its visual representation. When the host supports deferred
//! client-side cleanup, a failing node also registers a cleanup on its
//! lifecycle: unmounting the node schedules the removal of its entry on a
//! queue that the scheduler drains after the current synchronous update
//! pass, so the entry is cleared even when the failing subtree is replaced
//! wholesale rather than re-rendered in place.

use crate::errors::{ErrorKey, ErrorValue, Errors};
use vstd::prelude::*;

verus! {

broadcast use vstd::map::group_map_axioms;

/// The renderable output of a fallible node.
pub enum Rendered<T> {
    /// The node rendered normally, with its success value.
    Children(T),
    /// The node renders as an empty placeholder; representing the failure
    /// is the ancestor boundary's responsibility.
    Placeholder,
}

/// The views of a sequence of keys.
spec fn key_views(s: Seq<ErrorKey>) -> Seq<Seq<char>> {
    s.map_values(|k: ErrorKey| k@)
}

/// A set of keys, each held at most once.
struct KeySet {
    keys: Vec<ErrorKey>,
}

impl KeySet {
    /// The key identities this set holds.
    spec fn set(&self) -> Set<Seq<char>> {
        key_views(self.keys@).to_set()
    }

    #[verifier::type_invariant]
    spec fn wf(&self) -> bool {
        forall|i: int, j: int| 0 <= i < j < self.keys@.len() ==> self.keys@[i]@ != self.keys@[j]@
    }

    fn new() -> (s: KeySet)
        ensures
            s.set() == Set::<Seq<char>>::empty(),
    {
        let keys: Vec<ErrorKey> = Vec::new();
        proof {
            assert(key_views(keys@).to_set() =~= Set::<Seq<char>>::empty());
        }
        KeySet { keys }
    }

    /// Adds `key`; a no-op if an equal key is already present.
    fn insert(&mut self, key: ErrorKey)
        ensures
            final(self).set() == old(self).set().insert(key@),
    {
        proof {
            use_type_invariant(&*self);
        }
        match find_key(&self.keys, &key) {
            Some(_) => {
                proof {
                    assert(self.set().contains(key@)) by {
                        let i = choose|i: int|
                            0 <= i < self.keys@.len() && self.keys@[i]@ == key@;
                        assert(key_views(self.keys@)[i] == key@);
                    }
                    assert(self.set().insert(key@) =~= self.set());
                }
            },
            None => {
                let ghost pre: Seq<ErrorKey> = self.keys@;
                let ghost k: ErrorKey = key;
                let mut keys: Vec<ErrorKey> = Vec::new();
                std::mem::swap(&mut keys, &mut self.keys);
                keys.push(key);
                proof {
                    assert forall|i: int, j: int|
                        0 <= i < j < keys@.len() implies keys@[i]@ != keys@[j]@ by {
                        if j < pre.len() {
                            assert(keys@[i] == pre[i]);
                            assert(keys@[j] == pre[j]);
                        } else {
                            assert(keys@[i] == pre[i]);
                            assert(keys@[j] == k);
                        }
                    }
                    assert(key_views(keys@).to_set() =~= key_views(pre).to_set().insert(k@)) by {
                        assert forall|a: Seq<char>|
                            key_views(keys@).contains(a) implies key_views(pre).contains(a) || a
                            == k@ by {
                            let i = choose|i: int|
                                0 <= i < key_views(keys@).len() && key_views(keys@)[i] == a;
                            if i < pre.len() {
                                assert(key_views(pre)[i] == a);
                            }
                        }
                        assert forall|a: Seq<char>|
                            key_views(pre).contains(a) implies key_views(keys@).contains(a) by {
                            let i = choose|i: int|
                                0 <= i < key_views(pre).len() && key_views(pre)[i] == a;
                            assert(key_views(keys@)[i] == a);
                        }
                        assert(key_views(keys@)[pre.len() as int] == k@);
                    }
                }
                std::mem::swap(&mut keys, &mut self.keys);
            },
        }
    }

    /// Removes `key`, reporting whether it was present.
    fn remove(&mut self, key: &ErrorKey) -> (was: bool)
        ensures
            was == old(self).set().contains(key@),
            final(self).set() == old(self).set().remove(key@),
    {
        proof {
            use_type_invariant(&*self);
        }
        match find_key(&self.keys, key) {
            Some(i) => {
                proof {
                    let s = self.keys@;
                    assert(self.set().contains(key@)) by {
                        assert(key_views(s)[i as int] == key@);
                    }
                    assert forall|a: int, b: int|
                        0 <= a < b < s.remove(i as int).len() implies s.remove(i as int)[a]@
                        != s.remove(i as int)[b]@ by {
                        let ra = if a < i { a } else { a + 1 };
                        let rb = if b < i { b } else { b + 1 };
                        assert(s.remove(i as int)[a] == s[ra]);
                        assert(s.remove(i as int)[b] == s[rb]);
                    }
                    assert(key_views(s.remove(i as int)).to_set() =~= key_views(s).to_set().remove(
                        key@,
                    )) by {
                        assert forall|a: Seq<char>|
                            key_views(s.remove(i as int)).contains(a) implies key_views(
                            s,
                        ).contains(a) && a != key@ by {
                            let j = choose|j: int|
                                0 <= j < key_views(s.remove(i as int)).len() && key_views(
                                    s.remove(i as int),
                                )[j] == a;
                            let rj = if j < i { j } else { j + 1 };
                            assert(s.remove(i as int)[j] == s[rj]);
                            assert(key_views(s)[rj] == a);
                            assert(rj != i);
                        }
                        assert forall|a: Seq<char>|
                            key_views(s).contains(a) && a != key@ implies key_views(
                            s.remove(i as int),
                        ).contains(a) by {
                            let j = choose|j: int|
                                0 <= j < key_views(s).len() && key_views(s)[j] == a;
                            assert(j != i);
                            let rj = if j < i { j } else { j - 1 };
                            assert(s.remove(i as int)[rj] == s[j]);
                            assert(key_views(s.remove(i as int))[rj] == a);
                        }
                    }
                }
                let mut keys: Vec<ErrorKey> = Vec::new();
                std::mem::swap(&mut keys, &mut self.keys);
                let _ = keys.remove(i);
                std::mem::swap(&mut keys, &mut self.keys);
                true
            },
            None => {
                proof {
                    assert(!self.set().contains(key@)) by {
                        if key_views(self.keys@).contains(key@) {
                            let i = choose|i: int|
                                0 <= i < key_views(self.keys@).len() && key_views(self.keys@)[i]
                                    == key@;
                            assert(self.keys@[i]@ == key@);
                        }
                    }
                    assert(self.set().remove(key@) =~= self.set());
                }
                false
            },
        }
    }
}

/// The position of the first key equal to `key`, if any.
fn find_key(keys: &Vec<ErrorKey>, key: &ErrorKey) -> (found: Option<usize>)
    ensures
        match found {
            Some(i) => (i as int) < keys@.len() && keys@[i as int]@ == key@,
            None => forall|i: int| 0 <= i < keys@.len() ==> keys@[i]@ != key@,
        },
{
    let mut i: usize = 0;
    while i < keys.len()
        invariant
            i <= keys@.len(),
            forall|j: int| 0 <= j < i ==> keys@[j]@ != key@,
        decreases keys@.len() - i,
    {
        if keys[i] == *key {
            return Some(i);
        }
        i = i + 1;
    }
    None
}

/// The state a boundary keeps while its children render: the collection of
/// captured failures, the keys whose nodes registered a cleanup on their
/// lifecycle, and the queue of removals deferred until the current update
/// pass has finished.
pub struct Boundary {
    errors: Errors,
    cleanups: KeySet,
    queue: Vec<ErrorKey>,
}

impl Boundary {
    /// The mapping from key identity to stored error description.
    pub closed spec fn errors_map(&self) -> Map<Seq<char>, Seq<char>> {
        self.errors@
    }

    /// The keys whose nodes have a cleanup registered.
    pub closed spec fn registered(&self) -> Set<Seq<char>> {
        self.cleanups.set()
    }

    /// The keys whose removal is scheduled to run after the current pass.
    pub closed spec fn deferred(&self) -> Seq<Seq<char>> {
        key_views(self.queue@)
    }

    /// A boundary with no failures, no registered cleanups and nothing
    /// deferred.
    pub fn new() -> (b: Boundary)
        ensures
            b.errors_map() == Map::<Seq<char>, Seq<char>>::empty(),
            b.registered() == Set::<Seq<char>>::empty(),
            b.deferred() == Seq::<Seq<char>>::empty(),
    {
        let queue: Vec<ErrorKey> = Vec::new();
        proof {
            assert(key_views(queue@) =~= Seq::<Seq<char>>::empty());
        }
        Boundary { errors: Errors::new(), cleanups: KeySet::new(), queue }
    }

    /// Stores a failure under the key of the position that produced it,
    /// overwriting any prior entry there, and, where the host supports
    /// deferred cleanup, registers the position for cleanup at unmount.
    pub fn report_failure(&mut self, key: ErrorKey, error: ErrorValue, register_cleanup: bool)
        ensures
            final(self).errors_map() == old(self).errors_map().insert(key@, error@),
            register_cleanup ==> final(self).registered() == old(self).registered().insert(key@),
            !register_cleanup ==> final(self).registered() == old(self).registered(),
            final(self).deferred() == old(self).deferred(),
    {
        if register_cleanup {
            self.cleanups.insert(key.clone());
        }
        self.errors.insert(key, error);
    }

    /// Clears any stale entry at a position that has rendered successfully.
    pub fn resolve_success(&mut self, key: &ErrorKey)
        ensures
            final(self).errors_map() == old(self).errors_map().remove(key@),
            final(self).registered() == old(self).registered(),
            final(self).deferred() == old(self).deferred(),
    {
        let _ = self.errors.remove(key);
    }

    /// Runs the cleanup registered for an unmounted node, if any: the key's
    /// removal is scheduled to run once the current pass has finished, not
    /// performed inline.
    pub fn unmount(&mut self, key: &ErrorKey)
        ensures
            final(self).errors_map() == old(self).errors_map(),
            final(self).registered() == old(self).registered().remove(key@),
            old(self).registered().contains(key@) ==> final(self).deferred() == old(
                self,
            ).deferred().push(key@),
            !old(self).registered().contains(key@) ==> final(self).deferred() == old(
                self,
            ).deferred(),
    {
        let was = self.cleanups.remove(key);
        if was {
            let ghost pre: Seq<ErrorKey> = self.queue@;
            self.queue.push(key.clone());
            proof {
                assert(key_views(self.queue@) =~= key_views(pre).push(key@));
            }
        }
    }

    /// Drains the deferred queue, removing every scheduled key from the
    /// collection; runs after the current update pass, never during it.
    pub fn run_deferred(&mut self)
        ensures
            final(self).errors_map() == old(self).errors_map().remove_keys(
                old(self).deferred().to_set(),
            ),
            final(self).deferred() == Seq::<Seq<char>>::empty(),
            final(self).registered() == old(self).registered(),
    {
        let mut pending: Vec<ErrorKey> = Vec::new();
        std::mem::swap(&mut pending, &mut self.queue);
        let ghost all: Seq<ErrorKey> = pending@;
        proof {
            assert(self.errors@ =~= old(self).errors_map().remove_keys(
                key_views(all.take(0)).to_set(),
            )) by {
                assert(key_views(all.take(0)).to_set() =~= Set::<Seq<char>>::empty());
            }
        }
        let n: usize = pending.len();
        let mut i: usize = 0;
        while i < n
            invariant
                i <= n,
                n == all.len(),
                pending@ == all,
                self.errors@ == old(self).errors_map().remove_keys(
                    key_views(all.take(i as int)).to_set(),
                ),
                self.cleanups == old(self).cleanups,
                self.queue@.len() == 0,
            decreases n - i,
        {
            let _ = self.errors.remove(&pending[i]);
            proof {
                let s0 = all.take(i as int);
                let s1 = all.take(i as int + 1);
                let before = key_views(s0).to_set();
                let after = key_views(s1).to_set();
                assert(after =~= before.insert(all[i as int]@)) by {
                    assert forall|a: Seq<char>|
                        key_views(s1).contains(a) implies key_views(s0).contains(a) || a == all[i
                        as int]@ by {
                        let j = choose|j: int|
                            0 <= j < key_views(s1).len() && #[trigger] key_views(s1)[j] == a;
                        if j < i {
                            assert(key_views(s0)[j] == a);
                        }
                    }
                    assert forall|a: Seq<char>|
                        key_views(s0).contains(a) implies key_views(s1).contains(a) by {
                        let j = choose|j: int|
                            0 <= j < key_views(s0).len() && #[trigger] key_views(s0)[j] == a;
                        assert(key_views(s1)[j] == a);
                    }
                    assert(key_views(s1)[i as int] == all[i as int]@);
                }
                assert(old(self).errors_map().remove_keys(before).remove(all[i as int]@)
                    =~= old(self).errors_map().remove_keys(after));
            }
            i = i + 1;
        }
        proof {
            assert(all.take(n as int) =~= all);
            assert(key_views(self.queue@) =~= Seq::<Seq<char>>::empty());
        }
    }

    /// The captured failures, for the boundary to inspect and enumerate.
    pub fn errors(&self) -> (e: &Errors)
        ensures
            e@ == self.errors_map(),
    {
        &self.errors
    }
}

/// The ambient state a fallible node renders against: the handle an
/// ancestor boundary placed in scope, if one did, and whether the host
/// supports deferred client-side cleanup. Absence of a boundary means
/// failures are silently dropped, with a one-time diagnostic latched.
pub struct RenderContext {
    boundary: Option<Boundary>,
    deferred_cleanup: bool,
    warned_missing_boundary: bool,
}

impl RenderContext {
    /// Whether an ancestor boundary registered a handle.
    pub closed spec fn has_boundary(&self) -> bool {
        self.boundary is Some
    }

    /// The boundary's captured failures; empty when no boundary is active.
    pub closed spec fn errors_map(&self) -> Map<Seq<char>, Seq<char>> {
        match self.boundary {
            Some(b) => b.errors_map(),
            None => Map::empty(),
        }
    }

    /// The keys with a registered cleanup; empty when no boundary is active.
    pub closed spec fn registered(&self) -> Set<Seq<char>> {
        match self.boundary {
            Some(b) => b.registered(),
            None => Set::empty(),
        }
    }

    /// The deferred removals; empty when no boundary is active.
    pub closed spec fn deferred(&self) -> Seq<Seq<char>> {
        match self.boundary {
            Some(b) => b.deferred(),
            None => Seq::empty(),
        }
    }

    /// Whether the host supports deferred client-side cleanup.
    pub closed spec fn cleanup_supported(&self) -> bool {
        self.deferred_cleanup
    }

    /// Whether the missing-boundary diagnostic has been latched.
    pub closed spec fn warned(&self) -> bool {
        self.warned_missing_boundary
    }

    /// A context for one render pass: the boundary's handle, if an ancestor
    /// registered one, and whether the host supports deferred cleanup.
    pub fn new(boundary: Option<Boundary>, deferred_cleanup: bool) -> (ctx: RenderContext)
        ensures
            ctx.has_boundary() == (boundary is Some),
            (boundary matches Some(b) ==> ctx.errors_map() == b.errors_map() && ctx.registered()
                == b.registered() && ctx.deferred() == b.deferred()),
            boundary is None ==> ctx.errors_map() == Map::<Seq<char>, Seq<char>>::empty()
                && ctx.registered() == Set::<Seq<char>>::empty() && ctx.deferred() == Seq::<
                Seq<char>,
            >::empty(),
            ctx.cleanup_supported() == deferred_cleanup,
            !ctx.warned(),
    {
        RenderContext { boundary, deferred_cleanup, warned_missing_boundary: false }
    }

    /// Converts a fallible render result into a renderable output and keeps
    /// the ambient boundary's collection in step with it.
    ///
    /// On success any stale entry at `key` is removed and the value renders
    /// normally. On failure the error is stored under `key` — and, where
    /// deferred cleanup is supported, the position is registered for cleanup
    /// at unmount — and the node renders as an empty placeholder. With no
    /// boundary active a failure is dropped, never fatal, and the one-time
    /// diagnostic is latched.
    pub fn render_result<T>(&mut self, result: Result<T, ErrorValue>, key: ErrorKey) -> (out:
        Rendered<T>)
        ensures
            (match result {
                Ok(v) => out == Rendered::Children(v),
                Err(_) => out == Rendered::<T>::Placeholder,
            }),
            final(self).has_boundary() == old(self).has_boundary(),
            final(self).cleanup_supported() == old(self).cleanup_supported(),
            final(self).deferred() == old(self).deferred(),
            (match result {
                Ok(_) => old(self).has_boundary() ==> final(self).errors_map() == old(
                    self,
                ).errors_map().remove(key@) && final(self).registered() == old(self).registered(),
                Err(e) => old(self).has_boundary() ==> final(self).errors_map() == old(
                    self,
                ).errors_map().insert(key@, e@) && final(self).registered() == (if old(
                    self,
                ).cleanup_supported() {
                    old(self).registered().insert(key@)
                } else {
                    old(self).registered()
                }),
            }),
            !old(self).has_boundary() ==> final(self).errors_map() == old(self).errors_map()
                && final(self).registered() == old(self).registered(),
            final(self).warned() == (old(self).warned() || (result is Err && !old(
                self,
            ).has_boundary())),
    {
        let register_cleanup = self.deferred_cleanup;
        match result {
            Ok(value) => {
                match &mut self.boundary {
                    Some(b) => {
                        b.resolve_success(&key);
                    },
                    None => {},
                }
                Rendered::Children(value)
            },
            Err(error) => {
                match &mut self.boundary {
                    Some(b) => {
                        b.report_failure(key, error, register_cleanup);
                    },
                    None => {
                        // The failure is dropped: nothing will render it.
                        self.warned_missing_boundary = true;
                    },
                }
                Rendered::Placeholder
            },
        }
    }

    /// Runs the cleanup registered for an unmounted node, if any, scheduling
    /// the removal of its entry for after the current pass.
    pub fn unmount(&mut self, key: &ErrorKey)
        ensures
            final(self).has_boundary() == old(self).has_boundary(),
            final(self).cleanup_supported() == old(self).cleanup_supported(),
            final(self).warned() == old(self).warned(),
            final(self).errors_map() == old(self).errors_map(),
            final(self).registered() == old(self).registered().remove(key@),
            old(self).registered().contains(key@) ==> final(self).deferred() == old(
                self,
            ).deferred().push(key@),
            !old(self).registered().contains(key@) ==> final(self).deferred() == old(
                self,
            ).deferred(),
    {
        proof {
            assert(Set::<Seq<char>>::empty().remove(key@) =~= Set::<Seq<char>>::empty());
        }
        match &mut self.boundary {
            Some(b) => {
                b.unmount(key);
            },
            None => {},
        }
    }

    /// Drains the deferred removals once the current pass has finished.
    pub fn run_deferred(&mut self)
        ensures
            final(self).has_boundary() == old(self).has_boundary(),
            final(self).cleanup_supported() == old(self).cleanup_supported(),
            final(self).warned() == old(self).warned(),
            final(self).errors_map() == old(self).errors_map().remove_keys(
                old(self).deferred().to_set(),
            ),
            final(self).deferred() == Seq::<Seq<char>>::empty(),
            final(self).registered() == old(self).registered(),
    {
        proof {
            assert(Map::<Seq<char>, Seq<char>>::empty().remove_keys(
                Seq::<Seq<char>>::empty().to_set(),
            ) =~= Map::<Seq<char>, Seq<char>>::empty());
        }
        match &mut self.boundary {
            Some(b) => {
                b.run_deferred();
            },
            None => {},
        }
    }

    /// The boundary's collection, for deciding between fallback and
    /// children and for enumerating failures; `None` when no boundary is
    /// active.
    pub fn errors(&self) -> (e: Option<&Errors>)
        ensures
            self.has_boundary() ==> (e matches Some(er) && er@ == self.errors_map()),
            !self.has_boundary() ==> e is None,
    {
        match &self.boundary {
            Some(b) => Some(b.errors()),
            None => None,
        }
    }

    /// Hands the boundary's state back to its owner, for inspection after a
    /// pass.
    pub fn into_boundary(self) -> (b: Option<Boundary>)
        ensures
            self.has_boundary() ==> (b matches Some(bd) && bd.errors_map() == self.errors_map()
                && bd.registered() == self.registered() && bd.deferred() == self.deferred()),
            !self.has_boundary() ==> b is None,
    {
        self.boundary
    }
}

/// A failing render stores exactly one entry at its position; a later
/// success at the same position removes that entry, and a boundary that
/// held no other failure is empty again, so it shows children rather than
/// fallback.
pub proof fn lemma_fail_then_succeed(m: Map<Seq<char>, Seq<char>>, k: Seq<char>, e: Seq<char>)
    ensures
        m.insert(k, e).remove(k) == m.remove(k),
        m == Map::<Seq<char>, Seq<char>>::empty() ==> m.insert(k, e).remove(k) == Map::<
            Seq<char>,
            Seq<char>,
        >::empty(),
{
    assert(m.insert(k, e).remove(k) =~= m.remove(k));
    if m == Map::<Seq<char>, Seq<char>>::empty() {
        assert(m.remove(k) =~= m);
    }
}

/// Two distinct positions failing under the same boundary coexist as two
/// entries, each holding its own error, and each entry is resolved
/// independently of the other.
pub proof fn lemma_distinct_failures_coexist(
    m: Map<Seq<char>, Seq<char>>,
    k1: Seq<char>,
    k2: Seq<char>,
    e1: Seq<char>,
    e2: Seq<char>,
)
    requires
        k1 != k2,
    ensures
        m.insert(k1, e1).insert(k2, e2).contains_key(k1),
        m.insert(k1, e1).insert(k2, e2)[k1] == e1,
        m.insert(k1, e1).insert(k2, e2).contains_key(k2),
        m.insert(k1, e1).insert(k2, e2)[k2] == e2,
        m.insert(k1, e1).insert(k2, e2).remove(k1).contains_key(k2),
        m.insert(k1, e1).insert(k2, e2).remove(k1)[k2] == e2,
        !m.insert(k1, e1).insert(k2, e2).remove(k1).contains_key(k1),
{
}

/// Unmounting a node that previously failed, with no intervening success
/// render, removes its entry once the deferred cleanup queue is drained:
/// the key is on the queue, and draining removes every queued key.
pub proof fn lemma_deferred_cleanup_clears_key(
    m: Map<Seq<char>, Seq<char>>,
    queued: Seq<Seq<char>>,
    k: Seq<char>,
    e: Seq<char>,
)
    ensures
        !m.insert(k, e).remove_keys(queued.push(k).to_set()).contains_key(k),
{
    assert(queued.push(k)[queued.len() as int] == k);
    assert(queued.push(k).to_set().contains(k));
}

} // verus!

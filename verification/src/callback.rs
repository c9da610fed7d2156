//! Listener registration with drop-triggered deregistration.
//!
//! A registry stores each listener next to a reference-counted handler and
//! gives a copy of the handler back to the caller. The registry itself keeps
//! exactly one reference, so once the caller lets go of every copy, only the
//! registry's reference remains and the listener is pruned on the next
//! dispatch. Pruning keeps the surviving listeners in registration order:
//! the list after a dispatch is always a subsequence of the list before it,
//! which is what [`subsequence_of`] states.

use std::rc::Rc;
use vstd::prelude::*;

verus! {

/// `a` is a subsequence of `b`: every entry of `a` occurs in `b`, and in the
/// same relative order.
pub open spec fn subsequence_of<T>(a: Seq<T>, b: Seq<T>) -> bool
    decreases a.len() + b.len(),
{
    if a.len() == 0 {
        true
    } else if b.len() == 0 {
        false
    } else {
        (a.first() == b.first() && subsequence_of(a.drop_first(), b.drop_first()))
            || subsequence_of(a, b.drop_first())
    }
}

/// The entries picked out by `keep`, in order: entry `i` stays exactly when
/// `keep[i]` is true.
pub open spec fn selected<T>(entries: Seq<T>, keep: Seq<bool>) -> Seq<T>
    decreases entries.len(),
{
    if entries.len() == 0 || keep.len() == 0 {
        Seq::empty()
    } else if keep.first() {
        seq![entries.first()] + selected(entries.drop_first(), keep.drop_first())
    } else {
        selected(entries.drop_first(), keep.drop_first())
    }
}

/// How a selection grows when one entry and its flag are appended.
proof fn lemma_selected_push<T>(s: Seq<T>, k: Seq<bool>, a: T, b: bool)
    requires
        s.len() == k.len(),
    ensures
        selected(s.push(a), k.push(b)) == if b {
            selected(s, k).push(a)
        } else {
            selected(s, k)
        },
    decreases s.len(),
{
    let sp = s.push(a);
    let kp = k.push(b);
    if s.len() == 0 {
        assert(sp.drop_first() =~= Seq::<T>::empty());
        assert(kp.drop_first() =~= Seq::<bool>::empty());
        assert(selected(sp.drop_first(), kp.drop_first()) =~= Seq::<T>::empty());
        assert(selected(s, k) =~= Seq::<T>::empty());
        assert(seq![a] + Seq::<T>::empty() =~= seq![a]);
        assert(Seq::<T>::empty().push(a) =~= seq![a]);
        if b {
            assert(selected(sp, kp) =~= selected(s, k).push(a));
        } else {
            assert(selected(sp, kp) =~= selected(s, k));
        }
    } else {
        lemma_selected_push(s.drop_first(), k.drop_first(), a, b);
        assert(sp.drop_first() =~= s.drop_first().push(a));
        assert(kp.drop_first() =~= k.drop_first().push(b));
        if k.first() && b {
            assert(seq![s.first()] + selected(s.drop_first(), k.drop_first()).push(a) =~= (seq![
                s.first(),
            ] + selected(s.drop_first(), k.drop_first())).push(a));
        }
    }
}

/// Whatever the flags say, a selection is a subsequence of the entries.
proof fn lemma_selected_subsequence<T>(s: Seq<T>, k: Seq<bool>)
    requires
        s.len() == k.len(),
    ensures
        subsequence_of(selected(s, k), s),
    decreases s.len(),
{
    if s.len() > 0 {
        lemma_selected_subsequence(s.drop_first(), k.drop_first());
        if k.first() {
            let out = seq![s.first()] + selected(s.drop_first(), k.drop_first());
            assert(out.first() == s.first());
            assert(out.drop_first() =~= selected(s.drop_first(), k.drop_first()));
        }
    }
}

/// Every entry of a subsequence occurs somewhere in the longer sequence.
proof fn lemma_subsequence_elements<T>(a: Seq<T>, b: Seq<T>)
    requires
        subsequence_of(a, b),
    ensures
        forall|j: int| 0 <= j < a.len() ==> exists|k: int|
            0 <= k < b.len() && (#[trigger] b[k]) == (#[trigger] a[j]),
    decreases a.len() + b.len(),
{
    if a.len() == 0 {
    } else if a.first() == b.first() && subsequence_of(a.drop_first(), b.drop_first()) {
        lemma_subsequence_elements(a.drop_first(), b.drop_first());
        assert forall|j: int| 0 <= j < a.len() implies exists|k: int|
            0 <= k < b.len() && (#[trigger] b[k]) == (#[trigger] a[j]) by {
            if j == 0 {
                assert(b[0] == a[0]);
            } else {
                assert(a.drop_first()[j - 1] == a[j]);
                let k = choose|k: int|
                    0 <= k < b.drop_first().len() && b.drop_first()[k] == a.drop_first()[j - 1];
                assert(b[k + 1] == a[j]);
            }
        }
    } else {
        assert(subsequence_of(a, b.drop_first()));
        lemma_subsequence_elements(a, b.drop_first());
        assert forall|j: int| 0 <= j < a.len() implies exists|k: int|
            0 <= k < b.len() && (#[trigger] b[k]) == (#[trigger] a[j]) by {
            let k = choose|k: int| 0 <= k < b.drop_first().len() && b.drop_first()[k] == a[j];
            assert(b[k + 1] == a[j]);
        }
    }
}

/// Relies on `std::rc::Rc::strong_count`: whether any reference to the
/// handler beyond the registry's own is still held. The count reflects the
/// program's state at the moment of the call, so nothing is assumed of the
/// result.
#[verifier::external_body]
fn handler_still_held(handler: &Rc<()>) -> bool {
    Rc::strong_count(handler) > 1
}

/// Relies on `std::rc::Rc::clone`: the clone refers to the same allocation
/// and carries the same value.
#[verifier::external_body]
fn clone_handler(handler: &Rc<()>) -> (r: Rc<()>)
    ensures
        r == *handler,
{
    Rc::clone(handler)
}

/// Keeps exactly the entries whose flag is set, in order: the verified half
/// of pruning, exact for every value of `keep`.
fn retain_marked<T>(entries: &mut Vec<(T, Rc<()>)>, keep: &Vec<bool>)
    requires
        old(entries)@.len() == keep@.len(),
    ensures
        final(entries)@ == selected(old(entries)@, keep@),
{
    let ghost orig = entries@;
    let mut pos: usize = 0;
    let mut i: usize = 0;
    while pos < keep.len()
        invariant
            keep@.len() == orig.len(),
            pos <= orig.len(),
            entries@ == selected(orig.take(pos as int), keep@.take(pos as int)) + orig.skip(
                pos as int,
            ),
            i == selected(orig.take(pos as int), keep@.take(pos as int)).len(),
            i <= pos,
        decreases orig.len() - pos,
    {
        let ghost p = pos as int;
        proof {
            assert(orig.take(p + 1) =~= orig.take(p).push(orig[p]));
            assert(keep@.take(p + 1) =~= keep@.take(p).push(keep@[p]));
            lemma_selected_push(orig.take(p), keep@.take(p), orig[p], keep@[p]);
        }
        if keep[pos] {
            i = i + 1;
            proof {
                assert(entries@ =~= selected(orig.take(p + 1), keep@.take(p + 1)) + orig.skip(
                    p + 1,
                ));
            }
        } else {
            let _ = entries.remove(i);
            proof {
                assert(entries@ =~= selected(orig.take(p + 1), keep@.take(p + 1)) + orig.skip(
                    p + 1,
                ));
            }
        }
        pos = pos + 1;
    }
    proof {
        assert(orig.take(orig.len() as int) =~= orig);
        assert(keep@.take(orig.len() as int) =~= keep@);
        assert(entries@ =~= selected(orig, keep@));
    }
}

/// Drops every entry whose handler is no longer held outside the registry.
/// Which entries go depends on what the rest of the program still holds; in
/// every outcome the survivors keep their relative order.
fn prune_dead<T>(entries: &mut Vec<(T, Rc<()>)>)
    ensures
        subsequence_of(final(entries)@, old(entries)@),
{
    let mut keep: Vec<bool> = Vec::new();
    let mut j: usize = 0;
    while j < entries.len()
        invariant
            entries@ == old(entries)@,
            keep@.len() == j,
            j <= entries@.len(),
        decreases entries@.len() - j,
    {
        keep.push(handler_still_held(&entries[j].1));
        j = j + 1;
    }
    retain_marked(entries, &keep);
    proof {
        lemma_selected_subsequence(old(entries)@, keep@);
    }
}

/// Tracks listeners that take one parameter and runs them on demand. The
/// parameter type is `Copy` because it is handed to every listener.
pub struct CallbackRegistry<ParamType: Copy, F: Fn(ParamType)> {
    callbacks: Vec<(F, Rc<()>)>,
    _param: core::marker::PhantomData<ParamType>,
}

impl<ParamType: Copy, F: Fn(ParamType)> View for CallbackRegistry<ParamType, F> {
    type V = Seq<(F, Rc<()>)>;

    closed spec fn view(&self) -> Seq<(F, Rc<()>)> {
        self.callbacks@
    }
}

impl<ParamType: Copy, F: Fn(ParamType)> Default for CallbackRegistry<ParamType, F> {
    /// A registry with no listeners.
    fn default() -> (r: Self)
        ensures
            r@.len() == 0,
    {
        CallbackRegistry { callbacks: Vec::new(), _param: core::marker::PhantomData }
    }
}

impl<ParamType: Copy, F: Fn(ParamType)> CallbackRegistry<ParamType, F> {
    /// Accepts a listener and returns its handler: the listener stays
    /// registered for as long as some copy of the handler is held. Mutability
    /// of `self` is expected, because a listener is being added.
    pub fn add(&mut self, callback: F) -> (handler: Rc<()>)
        ensures
            final(self)@ == old(self)@.push((callback, handler)),
    {
        let handler = Rc::new(());
        let dup = clone_handler(&handler);
        self.callbacks.push((callback, dup));
        handler
    }

    /// Drops every listener whose handler is gone, then runs the remaining
    /// listeners in registration order, passing `param` to each. Mutability
    /// of `self` is expected, because dropped listeners are pruned.
    pub fn run_all(&mut self, param: ParamType)
        requires
            forall|j: int| 0 <= j < old(self)@.len() ==> call_requires(
                (#[trigger] old(self)@[j]).0,
                (param,),
            ),
        ensures
            subsequence_of(final(self)@, old(self)@),
    {
        let ghost orig = self@;
        prune_dead(&mut self.callbacks);
        proof {
            lemma_subsequence_elements(self@, orig);
        }
        let n = self.callbacks.len();
        let mut j: usize = 0;
        while j < n
            invariant
                n == self@.len(),
                subsequence_of(self@, orig),
                forall|jj: int| 0 <= jj < orig.len() ==> call_requires(
                    (#[trigger] orig[jj]).0,
                    (param,),
                ),
                forall|jj: int| 0 <= jj < self@.len() ==> exists|k: int|
                    0 <= k < orig.len() && (#[trigger] orig[k]) == (#[trigger] self@[jj]),
                j <= n,
            decreases n - j,
        {
            proof {
                let k = choose|k: int| 0 <= k < orig.len() && orig[k] == self@[j as int];
                assert(call_requires(orig[k].0, (param,)));
            }
            (self.callbacks[j].0)(param);
            j = j + 1;
        }
    }
}

/// Tracks listeners that take no argument and runs them on demand: the
/// no-parameter counterpart of [`CallbackRegistry`].
pub struct CallbackManager<F: Fn()> {
    callbacks: Vec<(F, Rc<()>)>,
}

impl<F: Fn()> View for CallbackManager<F> {
    type V = Seq<(F, Rc<()>)>;

    closed spec fn view(&self) -> Seq<(F, Rc<()>)> {
        self.callbacks@
    }
}

impl<F: Fn()> Default for CallbackManager<F> {
    /// A manager with no listeners.
    fn default() -> (r: Self)
        ensures
            r@.len() == 0,
    {
        CallbackManager { callbacks: Vec::new() }
    }
}

impl<F: Fn()> CallbackManager<F> {
    /// Accepts a listener with no arguments and returns its handler. Once
    /// every copy of the handler is dropped, the listener is not executed
    /// anymore.
    pub fn add(&mut self, callback: F) -> (handler: Rc<()>)
        ensures
            final(self)@ == old(self)@.push((callback, handler)),
    {
        let handler = Rc::new(());
        let dup = clone_handler(&handler);
        self.callbacks.push((callback, dup));
        handler
    }

    /// Drops every listener whose handler is gone, then runs the remaining
    /// listeners in registration order.
    pub fn run_all(&mut self)
        requires
            forall|j: int| 0 <= j < old(self)@.len() ==> call_requires(
                (#[trigger] old(self)@[j]).0,
                (),
            ),
        ensures
            subsequence_of(final(self)@, old(self)@),
    {
        let ghost orig = self@;
        prune_dead(&mut self.callbacks);
        proof {
            lemma_subsequence_elements(self@, orig);
        }
        let n = self.callbacks.len();
        let mut j: usize = 0;
        while j < n
            invariant
                n == self@.len(),
                subsequence_of(self@, orig),
                forall|jj: int| 0 <= jj < orig.len() ==> call_requires((#[trigger] orig[jj]).0, ()),
                forall|jj: int| 0 <= jj < self@.len() ==> exists|k: int|
                    0 <= k < orig.len() && (#[trigger] orig[k]) == (#[trigger] self@[jj]),
                j <= n,
            decreases n - j,
        {
            proof {
                let k = choose|k: int| 0 <= k < orig.len() && orig[k] == self@[j as int];
                assert(call_requires(orig[k].0, ()));
            }
            (self.callbacks[j].0)();
            j = j + 1;
        }
    }
}

} // verus!

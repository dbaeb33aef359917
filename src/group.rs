use vstd::prelude::*;

use crate::slot::{MagicStatic, SlotState};

verus! {

/// An entry of an initialisation list: one cell, by its index in the
/// [`Statics`] that holds it, or a nested list, run whole in its place.
pub enum Target {
    Slot(usize),
    Group(Vec<Target>),
}

/// The cells that a list names, depth first, left to right, repeats kept.
pub open spec fn leaves(entries: Seq<Target>) -> Seq<usize>
    decreases entries,
{
    if entries.len() == 0 {
        Seq::empty()
    } else {
        target_leaves(entries[0]) + leaves(entries.drop_first())
    }
}

/// The cells that one entry names, depth first.
pub open spec fn target_leaves(t: Target) -> Seq<usize>
    decreases t,
{
    match t {
        Target::Slot(i) => seq![i],
        Target::Group(g) => leaves(g@),
    }
}

/// Of the cells named in `order`, those still in `pending` at their turn, in
/// that order: each cell counts at its first mention.
pub open spec fn fresh(pending: Set<usize>, order: Seq<usize>) -> Seq<usize>
    decreases order.len(),
{
    if order.len() == 0 {
        Seq::empty()
    } else if pending.contains(order[0]) {
        seq![order[0]] + fresh(pending.remove(order[0]), order.drop_first())
    } else {
        fresh(pending, order.drop_first())
    }
}

/// The indices of the cells of `slots` that no call has started on.
pub open spec fn pending<T, F: Fn() -> T>(slots: Seq<MagicStatic<T, F>>) -> Set<usize> {
    Set::new(|i: usize| i < slots.len() && slots[i as int].state() is Uninitialized)
}

/// `after` is `before` once each cell named in `order` has been initialised:
/// those that no call had started on have run their producer, the others are
/// as they were.
pub open spec fn initialized_by<T, F: Fn() -> T>(
    before: Seq<MagicStatic<T, F>>,
    after: Seq<MagicStatic<T, F>>,
    order: Seq<usize>,
) -> bool {
    &&& after.len() == before.len()
    &&& forall|i: usize|
        i < before.len() ==> if before[i as int].state() is Uninitialized && order.contains(i) {
            (#[trigger] after[i as int]).produced_from(&before[i as int])
        } else {
            after[i as int] == before[i as int]
        }
}

/// `pending` without the cells named in `order`.
pub open spec fn without(pending: Set<usize>, order: Seq<usize>) -> Set<usize> {
    Set::new(|i: usize| pending.contains(i) && !order.contains(i))
}

/// Every cell named in `entries` is one of the first `n`.
pub open spec fn names_within(entries: Seq<Target>, n: nat) -> bool {
    forall|i: usize| #[trigger] leaves(entries).contains(i) ==> i < n
}

/// The cells of two lists one after the other are those of the joined list.
pub proof fn lemma_leaves_concat(a: Seq<Target>, b: Seq<Target>)
    ensures
        leaves(a + b) == leaves(a) + leaves(b),
    decreases a.len(),
{
    if a.len() == 0 {
        assert(a + b =~= b);
        assert(leaves(a) + leaves(b) =~= leaves(b));
    } else {
        assert((a + b).drop_first() =~= a.drop_first() + b);
        lemma_leaves_concat(a.drop_first(), b);
        vstd::seq_lib::lemma_concat_associative(
            target_leaves(a[0]),
            leaves(a.drop_first()),
            leaves(b),
        );
    }
}

/// The cells of one entry, as a list of its own.
pub proof fn lemma_leaves_single(t: Target)
    ensures
        leaves(seq![t]) == target_leaves(t),
{
    assert(seq![t].drop_first() =~= Seq::<Target>::empty());
    assert(leaves(Seq::<Target>::empty()) == Seq::<usize>::empty());
    assert(target_leaves(t) + Seq::<usize>::empty() =~= target_leaves(t));
}

/// The cells of a list, split around entry `i`.
pub proof fn lemma_leaves_split(entries: Seq<Target>, i: int)
    requires
        0 <= i < entries.len(),
    ensures
        leaves(entries.take(i + 1)) == leaves(entries.take(i)) + target_leaves(entries[i]),
        leaves(entries) == leaves(entries.take(i + 1)) + leaves(entries.skip(i + 1)),
{
    assert(entries.take(i + 1) =~= entries.take(i) + seq![entries[i]]);
    lemma_leaves_concat(entries.take(i), seq![entries[i]]);
    lemma_leaves_single(entries[i]);
    assert(entries =~= entries.take(i + 1) + entries.skip(i + 1));
    lemma_leaves_concat(entries.take(i + 1), entries.skip(i + 1));
}

/// Taking the cells of `x` and then those of `y` counts each cell once, at
/// its first mention.
pub proof fn lemma_fresh_concat(pending: Set<usize>, x: Seq<usize>, y: Seq<usize>)
    ensures
        fresh(pending, x + y) == fresh(pending, x) + fresh(without(pending, x), y),
    decreases x.len(),
{
    broadcast use vstd::seq_lib::lemma_seq_concat_contains_all_elements;

    if x.len() == 0 {
        assert(x + y =~= y);
        assert(without(pending, x) =~= pending);
        assert(fresh(pending, x) + fresh(pending, y) =~= fresh(pending, y));
    } else {
        let h = x[0];
        let rest = x.drop_first();
        assert((x + y).drop_first() =~= rest + y);
        assert(x =~= seq![h] + rest);
        assert(seq![h].contains(h)) by {
            assert(seq![h][0] == h);
        }
        assert forall|k: usize| x.contains(k) == (k == h || rest.contains(k)) by {
            if k != h {
                assert(forall|j: int| 0 <= j < seq![h].len() ==> seq![h][j] != k);
            }
        }
        if pending.contains(h) {
            lemma_fresh_concat(pending.remove(h), rest, y);
            assert(without(pending.remove(h), rest) =~= without(pending, x));
            vstd::seq_lib::lemma_concat_associative(
                seq![h],
                fresh(pending.remove(h), rest),
                fresh(without(pending, x), y),
            );
        } else {
            lemma_fresh_concat(pending, rest, y);
            assert(without(pending, rest) =~= without(pending, x));
        }
    }
}

/// Two initialisations one after the other are one initialisation of the
/// joined list, and the cells left pending are those that neither named.
pub proof fn lemma_initialized_by_concat<T, F: Fn() -> T>(
    a: Seq<MagicStatic<T, F>>,
    b: Seq<MagicStatic<T, F>>,
    c: Seq<MagicStatic<T, F>>,
    x: Seq<usize>,
    y: Seq<usize>,
)
    requires
        initialized_by(a, b, x),
        initialized_by(b, c, y),
    ensures
        initialized_by(a, c, x + y),
        pending(b) == without(pending(a), x),
{
    broadcast use vstd::seq_lib::lemma_seq_concat_contains_all_elements;

    assert forall|i: usize| i < a.len() implies if a[i as int].state() is Uninitialized && (x
        + y).contains(i) {
        (#[trigger] c[i as int]).produced_from(&a[i as int])
    } else {
        c[i as int] == a[i as int]
    } by {
        assert(b[i as int] == b[i as int]);
        assert(c[i as int] == c[i as int]);
    }
    assert(pending(b) =~= without(pending(a), x)) by {
        assert forall|i: usize| pending(b).contains(i) == without(pending(a), x).contains(i) by {
            if i < a.len() {
                assert(b[i as int] == b[i as int]);
            }
        }
    }
}

/// A set of cells, and the order in which their producers have run.
pub struct Statics<T, F> {
    slots: Vec<MagicStatic<T, F>>,
    order: Vec<usize>,
}

impl<T, F: Fn() -> T> Statics<T, F> {
    /// The cells.
    pub closed spec fn slots(&self) -> Seq<MagicStatic<T, F>> {
        self.slots@
    }

    /// The indices of the cells whose producer has run, in the order it ran.
    pub closed spec fn order(&self) -> Seq<usize> {
        self.order@
    }

    /// Every cell is well formed and its producer can be called.
    pub open spec fn wf(&self) -> bool {
        forall|i: int|
            0 <= i < self.slots().len() ==> (#[trigger] self.slots()[i]).wf()
                && self.slots()[i].producer().requires(())
    }

    /// No cells yet.
    pub fn new() -> (r: Self)
        ensures
            r.wf(),
            r.slots().len() == 0,
            r.order().len() == 0,
    {
        Statics { slots: Vec::new(), order: Vec::new() }
    }

    /// Declares a new cell with producer `init`; returns its index.
    pub fn declare(&mut self, init: F) -> (i: usize)
        requires
            old(self).wf(),
            init.requires(()),
        ensures
            final(self).wf(),
            i == old(self).slots().len(),
            final(self).slots().len() == old(self).slots().len() + 1,
            final(self).slots().drop_last() == old(self).slots(),
            final(self).slots()[i as int].state() is Uninitialized,
            final(self).slots()[i as int].producer() == init,
            final(self).order() == old(self).order(),
    {
        let i = self.slots.len();
        self.slots.push(MagicStatic::new(init));
        assert(self.slots@.drop_last() =~= old(self).slots@);
        assert forall|k: int| 0 <= k < self.slots().len() implies (#[trigger] self.slots()[k]).wf()
            && self.slots()[k].producer().requires(()) by {
            if k < i {
                assert(self.slots()[k] == old(self).slots()[k]);
            }
        }
        i
    }

    /// The number of cells.
    pub fn len(&self) -> (n: usize)
        ensures
            n == self.slots().len(),
    {
        self.slots.len()
    }

    /// Cell `i`.
    pub fn get(&self, i: usize) -> (r: &MagicStatic<T, F>)
        requires
            i < self.slots().len(),
        ensures
            *r == self.slots()[i as int],
    {
        &self.slots[i]
    }

    /// The indices of the cells whose producer has run, in the order it ran.
    pub fn init_order(&self) -> (r: &Vec<usize>)
        ensures
            r@ == self.order(),
    {
        &self.order
    }

    /// Initialises cell `i`, and records it if its producer ran.
    pub fn initialize(&mut self, i: usize)
        requires
            old(self).wf(),
            i < old(self).slots().len(),
        ensures
            final(self).wf(),
            initialized_by(old(self).slots(), final(self).slots(), seq![i]),
            final(self).order() == old(self).order() + fresh(pending(old(self).slots()), seq![i]),
    {
        let fresh_cell = match self.slots[i].observe() {
            SlotState::Uninitialized => true,
            _ => false,
        };
        self.slots[i].initialize();
        if fresh_cell {
            self.order.push(i);
        }
        proof {
            let p = pending(old(self).slots());
            assert(p.contains(i) == fresh_cell);
            assert(seq![i].drop_first() =~= Seq::<usize>::empty());
            assert(fresh(p, seq![i]) =~= if fresh_cell {
                seq![i]
            } else {
                Seq::empty()
            }) by {
                reveal_with_fuel(fresh, 2);
            }
            assert forall|k: int| 0 <= k < self.slots().len() && k != i implies self.slots()[k]
                == old(self).slots()[k] by {}
            assert forall|k: int| 0 <= k < self.slots().len() implies (#[trigger] self.slots()[k]).wf()
                && self.slots()[k].producer().requires(()) by {
                if k != i {
                    assert(self.slots()[k] == old(self).slots()[k]);
                }
            }
            assert(self.order@ =~= old(self).order@ + fresh(p, seq![i]));
            assert(seq![i][0] == i);
            assert forall|k: usize| k < self.slots().len() implies #[trigger] seq![i].contains(k)
                == (k == i) by {
                if k == i {
                    assert(seq![i][0] == k);
                } else {
                    assert(forall|j: int| 0 <= j < seq![i].len() ==> seq![i][j] != k);
                }
            }
        }
    }
}

/// Runs an initialisation list in declared order: each cell entry is
/// initialised, each nested list is run whole, depth first, before the next
/// entry. Cells already initialised, or named twice, are left as they are,
/// so running a list again changes nothing.
pub fn magic_static<T, F: Fn() -> T>(statics: &mut Statics<T, F>, entries: &Vec<Target>)
    requires
        old(statics).wf(),
        names_within(entries@, old(statics).slots().len()),
    ensures
        final(statics).wf(),
        initialized_by(old(statics).slots(), final(statics).slots(), leaves(entries@)),
        final(statics).order() == old(statics).order() + fresh(
            pending(old(statics).slots()),
            leaves(entries@),
        ),
    decreases entries,
{
    let ghost start = *statics;
    assert(entries@.take(0) =~= Seq::<Target>::empty());
    assert(initialized_by(start.slots(), start.slots(), Seq::empty()));
    assert(start.order() + fresh(pending(start.slots()), Seq::empty()) =~= start.order());
    let mut i: usize = 0;
    while i < entries.len()
        invariant
            i <= entries.len(),
            statics.wf(),
            names_within(entries@, start.slots().len()),
            initialized_by(start.slots(), statics.slots(), leaves(entries@.take(i as int))),
            statics.order() == start.order() + fresh(
                pending(start.slots()),
                leaves(entries@.take(i as int)),
            ),
        decreases entries.len() - i,
    {
        broadcast use vstd::seq_lib::lemma_seq_concat_contains_all_elements;

        let ghost before = *statics;
        let ghost done = leaves(entries@.take(i as int));
        proof {
            lemma_leaves_split(entries@, i as int);
        }
        match &entries[i] {
            Target::Slot(k) => {
                assert(target_leaves(entries@[i as int]) == seq![*k]);
                assert(seq![*k][0] == *k);
                assert(leaves(entries@).contains(*k));
                statics.initialize(*k);
            },
            Target::Group(g) => {
                assert(target_leaves(entries@[i as int]) == leaves(g@));
                assert forall|k: usize| #[trigger] leaves(g@).contains(k) implies k
                    < statics.slots().len() by {
                    assert(leaves(entries@).contains(k));
                }
                magic_static(statics, g);
            },
        }
        proof {
            let step = target_leaves(entries@[i as int]);
            lemma_initialized_by_concat(start.slots(), before.slots(), statics.slots(), done, step);
            lemma_fresh_concat(pending(start.slots()), done, step);
            vstd::seq_lib::lemma_concat_associative(
                start.order(),
                fresh(pending(start.slots()), done),
                fresh(pending(before.slots()), step),
            );
        }
        i = i + 1;
    }
    assert(entries@.take(i as int) =~= entries@);
}

/// Nothing pending is named in `order`, so none of its cells is fresh.
pub proof fn lemma_fresh_none_pending(pending: Set<usize>, order: Seq<usize>)
    requires
        forall|k: usize| #[trigger] order.contains(k) ==> !pending.contains(k),
    ensures
        fresh(pending, order) == Seq::<usize>::empty(),
    decreases order.len(),
{
    if order.len() > 0 {
        assert(order.contains(order[0]));
        assert forall|k: usize| #[trigger] order.drop_first().contains(k) implies !pending.contains(
            k,
        ) by {
            let j = choose|j: int| 0 <= j < order.drop_first().len() && order.drop_first()[j] == k;
            assert(order[j + 1] == k);
            assert(order.contains(k));
        }
        lemma_fresh_none_pending(pending, order.drop_first());
    }
}

/// Replay: running the same list a second time runs no producer, records
/// nothing and leaves every cell as the first run left it.
pub proof fn lemma_replay_changes_nothing<T, F: Fn() -> T>(
    a: Seq<MagicStatic<T, F>>,
    b: Seq<MagicStatic<T, F>>,
    c: Seq<MagicStatic<T, F>>,
    order: Seq<usize>,
)
    requires
        initialized_by(a, b, order),
        initialized_by(b, c, order),
        b.len() <= usize::MAX,
    ensures
        c == b,
        fresh(pending(b), order) == Seq::<usize>::empty(),
{
    assert forall|i: usize| i < b.len() && #[trigger] order.contains(i) implies !(
    b[i as int].state() is Uninitialized) by {
        assert(b[i as int] == b[i as int]);
    }
    assert forall|i: int| 0 <= i < b.len() implies c[i] == b[i] by {
        let u = i as usize;
        assert(c[u as int] == b[u as int]);
    }
    assert(c =~= b);
    lemma_fresh_none_pending(pending(b), order);
}

/// Declared order: when the cells a list names are all pending and named
/// once each, their producers run exactly in the order the list names them.
pub proof fn lemma_declared_order(pending: Set<usize>, order: Seq<usize>)
    requires
        order.no_duplicates(),
        forall|k: usize| #[trigger] order.contains(k) ==> pending.contains(k),
    ensures
        fresh(pending, order) == order,
    decreases order.len(),
{
    if order.len() > 0 {
        let h = order[0];
        let rest = order.drop_first();
        assert(order.contains(h));
        assert forall|k: usize| #[trigger] rest.contains(k) implies pending.remove(h).contains(k) by {
            let j = choose|j: int| 0 <= j < rest.len() && rest[j] == k;
            assert(order[j + 1] == k);
            assert(order.contains(k));
        }
        lemma_declared_order(pending.remove(h), rest);
        assert(seq![h] + rest =~= order);
    }
}

/// Nesting: a list whose first entry is a nested list names that list's
/// cells, in its own order, before any cell of the entries after it.
pub proof fn lemma_nested_runs_first(nested: Vec<Target>, rest: Seq<Target>)
    ensures
        leaves(seq![Target::Group(nested)] + rest) == leaves(nested@) + leaves(rest),
{
    lemma_leaves_concat(seq![Target::Group(nested)], rest);
    lemma_leaves_single(Target::Group(nested));
}

} // verus!

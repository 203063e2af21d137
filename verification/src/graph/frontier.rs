//! The frontier of a search: the states that wait to be taken up, kept as a
//! binary heap so that the next state to take up stands first.

use crate::graph::search::SearchState;
use vstd::prelude::*;

verus! {

/// The place above the place `i` in the heap.
pub open spec fn above(i: int) -> int {
    (i - 1) / 2
}

/// No state outranks the state above it.
pub open spec fn heap_ordered(items: Seq<SearchState>) -> bool {
    forall|i: int| 1 <= i < items.len() ==> !(#[trigger] items[i]).outranks(items[above(i)])
}

/// The heap is in order but for the state at `hole`, which may outrank the
/// state above it; the states below `hole` do not outrank the state above
/// `hole`.
pub(crate) open spec fn ordered_but_up(items: Seq<SearchState>, hole: int) -> bool {
    &&& forall|i: int|
        1 <= i < items.len() && i != hole ==> !(#[trigger] items[i]).outranks(items[above(i)])
    &&& forall|i: int|
        1 <= i < items.len() && above(i) == hole && hole >= 1 ==> !(#[trigger] items[i]).outranks(
            items[above(hole)],
        )
}

/// The heap is in order but for the states just below `hole`, which may
/// outrank the state at `hole`; they do not outrank the state above `hole`.
pub(crate) open spec fn ordered_but_down(items: Seq<SearchState>, hole: int) -> bool {
    &&& forall|i: int|
        1 <= i < items.len() && above(i) != hole ==> !(#[trigger] items[i]).outranks(
            items[above(i)],
        )
    &&& forall|i: int|
        1 <= i < items.len() && above(i) == hole && hole >= 1 ==> !(#[trigger] items[i]).outranks(
            items[above(hole)],
        )
}

/// The two lists hold the same states.
pub(crate) open spec fn same_states(one: Seq<SearchState>, other: Seq<SearchState>) -> bool {
    &&& one.len() == other.len()
    &&& forall|state: SearchState| one.contains(state) <==> other.contains(state)
}

/// In a heap in order, no state outranks the first.
pub proof fn lemma_first_is_best(items: Seq<SearchState>, place: int)
    requires
        heap_ordered(items),
        0 <= place < items.len(),
    ensures
        !items[place].outranks(items[0]),
    decreases place,
{
    if place > 0 {
        lemma_first_is_best(items, above(place));
        assert(!items[place].outranks(items[above(place)]));
    }
}

/// Exchanges the states at two places.
fn exchange(items: &mut Vec<SearchState>, one: usize, other: usize)
    requires
        one < old(items)@.len(),
        other < old(items)@.len(),
    ensures
        final(items)@ == old(items)@.update(one as int, old(items)@[other as int]).update(
            other as int,
            old(items)@[one as int],
        ),
        same_states(old(items)@, final(items)@),
{
    let first = items[one];
    let second = items[other];
    items.set(one, second);
    items.set(other, first);
    proof {
        let before = old(items)@;
        let after = items@;
        assert forall|state: SearchState| before.contains(state) implies after.contains(state) by {
            let p = choose|p: int| 0 <= p < before.len() && before[p] == state;
            if p == one {
                assert(after[other as int] == state);
            } else if p == other {
                assert(after[one as int] == state);
            } else {
                assert(after[p] == state);
            }
        }
        assert forall|state: SearchState| after.contains(state) implies before.contains(state) by {
            let p = choose|p: int| 0 <= p < after.len() && after[p] == state;
            if p == one {
                assert(before[other as int] == state);
            } else if p == other {
                assert(before[one as int] == state);
            } else {
                assert(before[p] == state);
            }
        }
    }
}

/// Lets the state at `start` rise to its place.
fn sift_up(items: &mut Vec<SearchState>, start: usize)
    requires
        start < old(items)@.len(),
        ordered_but_up(old(items)@, start as int),
    ensures
        heap_ordered(final(items)@),
        same_states(old(items)@, final(items)@),
{
    let mut hole: usize = start;
    while hole > 0
        invariant
            hole < items@.len(),
            ordered_but_up(items@, hole as int),
            same_states(old(items)@, items@),
        ensures
            heap_ordered(items@),
            same_states(old(items)@, items@),
        decreases hole,
    {
        let up = (hole - 1) / 2;
        if items[hole].is_ahead_of(&items[up]) {
            let ghost before = items@;
            exchange(items, hole, up);
            proof {
                let after = items@;
                assert forall|i: int| 1 <= i < after.len() && i != up implies !(#[trigger] after[i]).outranks(
                    after[above(i)],
                ) by {
                    if i == hole {
                    } else if above(i) == hole {
                        assert(!before[i].outranks(before[above(hole as int)]));
                    } else if above(i) == up {
                        assert(!before[i].outranks(before[above(i)]));
                    } else {
                        assert(!before[i].outranks(before[above(i)]));
                    }
                }
                assert forall|i: int|
                    1 <= i < after.len() && above(i) == up && up >= 1 implies !(#[trigger] after[i]).outranks(
                    after[above(up as int)],
                ) by {
                    assert(!before[up as int].outranks(before[above(up as int)]));
                    if i != hole {
                        assert(!before[i].outranks(before[above(i)]));
                    }
                }
            }
            hole = up;
        } else {
            break ;
        }
    }
}

/// Lets the state at the first place sink to its place.
fn sift_down(items: &mut Vec<SearchState>)
    requires
        old(items)@.len() >= 1,
        ordered_but_down(old(items)@, 0),
    ensures
        heap_ordered(final(items)@),
        same_states(old(items)@, final(items)@),
{
    let mut hole: usize = 0;
    loop
        invariant
            hole < items@.len(),
            ordered_but_down(items@, hole as int),
            same_states(old(items)@, items@),
        ensures
            heap_ordered(items@),
            same_states(old(items)@, items@),
        decreases items@.len() - hole,
    {
        if hole >= items.len() / 2 {
            proof {
                assert forall|i: int| 1 <= i < items@.len() implies !(#[trigger] items@[i]).outranks(
                    items@[above(i)],
                ) by {
                    assert(above(i) != hole);
                }
            }
            break ;
        }
        let left = 2 * hole + 1;
        if left >= items.len() {
            proof {
                assert forall|i: int| 1 <= i < items@.len() implies !(#[trigger] items@[i]).outranks(
                    items@[above(i)],
                ) by {
                    assert(above(i) != hole);
                }
            }
            break ;
        }
        let right = left + 1;
        let down = if right < items.len() && items[right].is_ahead_of(&items[left]) {
            right
        } else {
            left
        };
        if items[down].is_ahead_of(&items[hole]) {
            let ghost before = items@;
            exchange(items, hole, down);
            proof {
                let after = items@;
                assert forall|i: int|
                    1 <= i < after.len() && above(i) != down implies !(#[trigger] after[i]).outranks(
                    after[above(i)],
                ) by {
                    if i == down {
                    } else if above(i) == hole {
                        assert(i == left || i == right);
                    } else if i == hole {
                        assert(!before[down as int].outranks(before[above(hole as int)]));
                    } else {
                        assert(!before[i].outranks(before[above(i)]));
                    }
                }
                assert forall|i: int|
                    1 <= i < after.len() && above(i) == down && down >= 1 implies !(
                #[trigger] after[i]).outranks(after[above(down as int)]) by {
                    assert(!before[i].outranks(before[above(i)]));
                }
            }
            hole = down;
        } else {
            proof {
                assert forall|i: int| 1 <= i < items@.len() implies !(#[trigger] items@[i]).outranks(
                    items@[above(i)],
                ) by {
                    if above(i) == hole {
                        assert(i == left || i == right);
                    }
                }
            }
            break ;
        }
    }
}

/// The states of a search that wait to be taken up.
pub struct Frontier {
    items: Vec<SearchState>,
}

impl View for Frontier {
    type V = Seq<SearchState>;

    closed spec fn view(&self) -> Seq<SearchState> {
        self.items@
    }
}

impl Frontier {
    #[verifier::type_invariant]
    spec fn in_order(&self) -> bool {
        heap_ordered(self.items@)
    }

    /// The frontier in which nothing waits.
    pub fn new() -> (frontier: Frontier)
        ensures
            frontier@.len() == 0,
    {
        Frontier { items: Vec::new() }
    }

    /// How many states wait.
    pub fn len(&self) -> (len: usize)
        ensures
            len == self@.len(),
    {
        self.items.len()
    }

    /// Lets `state` wait.
    pub fn push(&mut self, state: SearchState)
        ensures
            final(self)@.len() == old(self)@.len() + 1,
            forall|other: SearchState|
                final(self)@.contains(other) <==> old(self)@.contains(other) || other == state,
    {
        proof {
            use_type_invariant(&*self);
        }
        let mut items: Vec<SearchState> = Vec::new();
        std::mem::swap(&mut self.items, &mut items);
        let ghost before = items@;
        items.push(state);
        let ghost pushed = items@;
        proof {
            assert forall|i: int| 1 <= i < pushed.len() && i != pushed.len() - 1 implies !(
            #[trigger] pushed[i]).outranks(pushed[above(i)]) by {
                assert(!before[i].outranks(before[above(i)]));
            }
        }
        let last = items.len() - 1;
        sift_up(&mut items, last);
        let ghost sifted = items@;
        proof {
            assert(before == old(self)@);
            assert forall|other: SearchState| sifted.contains(other) implies before.contains(other)
                || other == state by {
                assert(pushed.contains(other));
                let p = choose|p: int| 0 <= p < pushed.len() && pushed[p] == other;
                if p < before.len() {
                    assert(before[p] == other);
                }
            }
            assert forall|other: SearchState|
                before.contains(other) || other == state implies sifted.contains(other) by {
                if before.contains(other) {
                    let p = choose|p: int| 0 <= p < before.len() && before[p] == other;
                    assert(pushed[p] == other);
                } else {
                    assert(pushed[pushed.len() - 1] == other);
                }
                assert(pushed.contains(other));
            }
        }
        std::mem::swap(&mut self.items, &mut items);
        proof {
            assert(self@ == sifted);
        }
    }

    /// Takes out the state to take up next: one that no waiting state
    /// outranks. `None` where nothing waits.
    pub fn pop(&mut self) -> (best: Option<SearchState>)
        ensures
            match best {
                None => old(self)@.len() == 0 && final(self)@.len() == 0,
                Some(state) => {
                    &&& old(self)@.contains(state)
                    &&& final(self)@.len() + 1 == old(self)@.len()
                    &&& forall|other: SearchState|
                        old(self)@.contains(other) ==> !other.outranks(state)
                    &&& forall|other: SearchState|
                        final(self)@.contains(other) ==> old(self)@.contains(other)
                    &&& forall|other: SearchState|
                        old(self)@.contains(other) && other != state ==> final(self)@.contains(
                            other,
                        )
                },
            },
    {
        proof {
            use_type_invariant(&*self);
        }
        if self.items.len() == 0 {
            return None;
        }
        let mut items: Vec<SearchState> = Vec::new();
        std::mem::swap(&mut self.items, &mut items);
        let ghost before = items@;
        let state = items[0];
        let last = items.pop().unwrap();
        proof {
            assert forall|other: SearchState| before.contains(other) implies !other.outranks(
                state,
            ) by {
                let p = choose|p: int| 0 <= p < before.len() && before[p] == other;
                lemma_first_is_best(before, p);
            }
        }
        if items.len() > 0 {
            let ghost shorter = items@;
            items.set(0, last);
            let ghost moved = items@;
            proof {
                assert forall|i: int|
                    1 <= i < moved.len() && above(i) != 0 implies !(#[trigger] moved[i]).outranks(
                    moved[above(i)],
                ) by {
                    assert(!before[i].outranks(before[above(i)]));
                }
            }
            sift_down(&mut items);
            proof {
                assert forall|other: SearchState| items@.contains(other) implies before.contains(
                    other,
                ) by {
                    let p = choose|p: int| 0 <= p < moved.len() && moved[p] == other;
                    if p == 0 {
                        assert(before[before.len() - 1] == other);
                    } else {
                        assert(before[p] == other);
                    }
                }
                assert forall|other: SearchState|
                    before.contains(other) && other != state implies items@.contains(other) by {
                    let p = choose|p: int| 0 <= p < before.len() && before[p] == other;
                    if p == before.len() - 1 {
                        assert(moved[0] == other);
                    } else {
                        assert(moved[p] == other);
                    }
                }
            }
        } else {
            proof {
                assert forall|other: SearchState|
                    before.contains(other) && other != state implies items@.contains(other) by {
                    let p = choose|p: int| 0 <= p < before.len() && before[p] == other;
                }
            }
        }
        proof {
            assert(before[0] == state);
        }
        std::mem::swap(&mut self.items, &mut items);
        Some(state)
    }
}

} // verus!

//! Decisions of the editor's hierarchy widget: what a click on an entity's
//! row or on its chevron does to the selection and to the expanded entities.
use vstd::prelude::*;

verus! {

/// `s` with every occurrence of `e` left out, the others in order.
pub open spec fn without(s: Seq<u64>, e: u64) -> Seq<u64>
    decreases s.len(),
{
    if s.len() == 0 {
        Seq::empty()
    } else {
        let w = without(s.drop_last(), e);
        if s.last() == e {
            w
        } else {
            w.push(s.last())
        }
    }
}

/// `e` no longer occurs once it has been left out.
proof fn lemma_without_lacks(s: Seq<u64>, e: u64)
    ensures
        !without(s, e).contains(e),
    decreases s.len(),
{
    if s.len() > 0 {
        lemma_without_lacks(s.drop_last(), e);
        let w = without(s.drop_last(), e);
        if s.last() != e {
            assert forall|i: int| 0 <= i < w.push(s.last()).len() implies w.push(s.last())[i] != e by {
                if i < w.len() {
                    assert(w.push(s.last())[i] == w[i]);
                }
            }
        }
    }
}

/// Leaving `e` out of a list keeps every other entry, in order: the result
/// is the list filtered by `x != e`, it lacks `e`, and any other value
/// occurs in it exactly when it occurs in the list.
pub proof fn law_without_keeps_others(s: Seq<u64>, e: u64)
    ensures
        without(s, e) =~= s.filter(|x: u64| x != e),
        !without(s, e).contains(e),
        forall|x: u64| x != e ==> (without(s, e).contains(x) <==> s.contains(x)),
    decreases s.len(),
{
    reveal(Seq::filter);
    lemma_without_lacks(s, e);
    if s.len() > 0 {
        law_without_keeps_others(s.drop_last(), e);
        let w = without(s.drop_last(), e);
        assert(s.filter(|x: u64| x != e) == if s.last() != e {
            s.drop_last().filter(|x: u64| x != e).push(s.last())
        } else {
            s.drop_last().filter(|x: u64| x != e)
        });
        assert forall|x: u64| x != e implies (without(s, e).contains(x) <==> s.contains(x)) by {
            if s.contains(x) {
                let i = choose|i: int| 0 <= i < s.len() && s[i] == x;
                if i < s.len() - 1 {
                    assert(s.drop_last()[i] == x);
                    assert(s.drop_last().contains(x));
                    assert(w.contains(x));
                    let k = choose|k: int| 0 <= k < w.len() && w[k] == x;
                    if s.last() != e {
                        assert(w.push(s.last())[k] == x);
                    }
                } else {
                    assert(w.push(s.last())[w.len() as int] == x);
                }
            }
            if without(s, e).contains(x) {
                let k = choose|k: int| 0 <= k < without(s, e).len() && without(s, e)[k] == x;
                if k < w.len() {
                    assert(w[k] == x);
                    assert(w.contains(x));
                    assert(s.drop_last().contains(x));
                    let i = choose|i: int| 0 <= i < s.drop_last().len() && s.drop_last()[i] == x;
                    assert(s[i] == x);
                    assert(s.contains(x));
                } else {
                    assert(s[s.len() - 1] == x);
                }
            }
        }
    }
}

/// A copy of `s` without `e`.
fn remove_entity(s: &Vec<u64>, e: u64) -> (r: Vec<u64>)
    ensures
        r@ == without(s@, e),
{
    let mut r: Vec<u64> = Vec::new();
    let mut i: usize = 0;
    while i < s.len()
        invariant
            i <= s@.len(),
            r@ == without(s@.take(i as int), e),
        decreases s@.len() - i,
    {
        assert(s@.take(i + 1).drop_last() =~= s@.take(i as int));
        if s[i] != e {
            r.push(s[i]);
        }
        i = i + 1;
    }
    assert(s@.take(i as int) =~= s@);
    r
}

/// Whether `e` occurs in `s`.
fn holds(s: &Vec<u64>, e: u64) -> (r: bool)
    ensures
        r == s@.contains(e),
{
    let mut i: usize = 0;
    while i < s.len()
        invariant
            i <= s@.len(),
            forall|j: int| 0 <= j < i ==> s@[j] != e,
        decreases s@.len() - i,
    {
        if s[i] == e {
            return true;
        }
        i = i + 1;
    }
    false
}

/// The selection and the expanded entities after a click on the row of
/// `entity` (`row_clicked`) and on its chevron (`chevron_clicked`), and
/// whether the entity's children are drawn below it.
///
/// A click on the chevron expands a collapsed entity and collapses an
/// expanded one. A click on the row of a selected entity takes it out of
/// the selection; on any other row the selection becomes that entity alone.
/// The children are drawn when the entity ends expanded.
pub fn hierarchy_click(
    selected: &Vec<u64>,
    expanded: &Vec<u64>,
    entity: u64,
    row_clicked: bool,
    chevron_clicked: bool,
) -> (r: (Vec<u64>, Vec<u64>, bool))
    ensures
        row_clicked && selected@.contains(entity) ==> r.0@ == without(selected@, entity),
        row_clicked && !selected@.contains(entity) ==> r.0@ == seq![entity],
        !row_clicked ==> r.0@ == selected@,
        chevron_clicked && expanded@.contains(entity) ==> r.1@ == without(expanded@, entity),
        chevron_clicked && !expanded@.contains(entity) ==> r.1@ == expanded@.push(entity),
        !chevron_clicked ==> r.1@ == expanded@,
        r.2 == r.1@.contains(entity),
{
    let is_selected = holds(selected, entity);
    let is_expanded = holds(expanded, entity);
    let new_expanded = if chevron_clicked {
        if is_expanded {
            remove_entity(expanded, entity)
        } else {
            let mut e = expanded.clone();
            e.push(entity);
            e
        }
    } else {
        expanded.clone()
    };
    let new_selected = if row_clicked {
        if is_selected {
            remove_entity(selected, entity)
        } else {
            let mut s: Vec<u64> = Vec::new();
            s.push(entity);
            s
        }
    } else {
        selected.clone()
    };
    proof {
        lemma_without_lacks(expanded@, entity);
        if chevron_clicked && !is_expanded {
            assert(new_expanded@[new_expanded@.len() - 1] == entity);
        }
    }
    let drawn = holds(&new_expanded, entity);
    (new_selected, new_expanded, drawn)
}

} // verus!

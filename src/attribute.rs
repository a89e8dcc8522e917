//! Values of a session record's attributes, as the key-value store types
//! them, and their equality.

use vstd::prelude::*;

verus! {

/// One attribute value of a stored record.
pub enum AttrValue {
    /// A string.
    S(String),
    /// A number, in its decimal text.
    N(String),
    /// Binary data.
    B(Vec<u8>),
    Bool(bool),
    Null(bool),
    /// A list, in order.
    L(Vec<AttrValue>),
    /// A map from names to values; names are unique.
    M(Vec<(String, AttrValue)>),
    /// A string set, in the order the store gave it.
    Ss(Vec<String>),
    /// A number set, in the order the store gave it.
    Ns(Vec<String>),
    /// A binary set, in the order the store gave it.
    Bs(Vec<Vec<u8>>),
}

pub open spec fn texts_of(v: Seq<String>) -> Seq<Seq<char>> {
    v.map_values(|s: String| s@)
}

pub open spec fn blobs_of(v: Seq<Vec<u8>>) -> Seq<Seq<u8>> {
    v.map_values(|b: Vec<u8>| b@)
}

/// Each name of `x` is a name of `y`.
pub open spec fn names_within(x: Seq<(String, AttrValue)>, y: Seq<(String, AttrValue)>) -> bool {
    forall|i: int| 0 <= i < x.len() ==> names_of(y).contains(#[trigger] x[i].0@)
}

/// The names of the entries of `y`, in order.
pub open spec fn names_of(y: Seq<(String, AttrValue)>) -> Seq<Seq<char>> {
    y.map_values(|e: (String, AttrValue)| e.0@)
}

/// `x` and `y` hold the same names.
pub open spec fn same_names(x: Seq<(String, AttrValue)>, y: Seq<(String, AttrValue)>) -> bool {
    names_within(x, y) && names_within(y, x)
}

/// Two values are equal: scalars and sets by their contents in order,
/// lists element by element, maps as maps, each name of one holding an
/// equal value under the same name in the other.
pub open spec fn same_value(a: AttrValue, b: AttrValue) -> bool
    decreases a,
{
    match a {
        AttrValue::S(x) => b is S && x@ == b->S_0@,
        AttrValue::N(x) => b is N && x@ == b->N_0@,
        AttrValue::B(x) => b is B && x@ == b->B_0@,
        AttrValue::Bool(x) => b is Bool && x == b->Bool_0,
        AttrValue::Null(x) => b is Null && x == b->Null_0,
        AttrValue::L(x) => {
            &&& b is L
            &&& x@.len() == b->L_0@.len()
            &&& forall|i: int| 0 <= i < x@.len() ==> same_value(#[trigger] x@[i], b->L_0@[i])
        },
        AttrValue::M(x) => {
            &&& b is M
            &&& x@.len() == b->M_0@.len()
            &&& same_names(x@, b->M_0@)
            &&& forall|i: int, j: int| #![trigger x@[i], b->M_0@[j]]
                0 <= i < x@.len() && 0 <= j < b->M_0@.len() && x@[i].0@ == b->M_0@[j].0@
                    ==> same_value(x@[i].1, b->M_0@[j].1)
        },
        AttrValue::Ss(x) => b is Ss && texts_of(x@) == texts_of(b->Ss_0@),
        AttrValue::Ns(x) => b is Ns && texts_of(x@) == texts_of(b->Ns_0@),
        AttrValue::Bs(x) => b is Bs && blobs_of(x@) == blobs_of(b->Bs_0@),
    }
}

/// Two attribute maps are equal as maps: they hold as many entries and the
/// same names, and values under the same name are equal.
pub open spec fn same_entries(x: Seq<(String, AttrValue)>, y: Seq<(String, AttrValue)>) -> bool {
    &&& x.len() == y.len()
    &&& same_names(x, y)
    &&& forall|i: int, j: int| #![trigger x[i], y[j]]
        0 <= i < x.len() && 0 <= j < y.len() && x[i].0@ == y[j].0@
            ==> same_value(x[i].1, y[j].1)
}

/// Names are unique within each map, at every depth, as the store keeps them.
pub open spec fn wf_value(a: AttrValue) -> bool
    decreases a,
{
    match a {
        AttrValue::L(x) => forall|i: int| 0 <= i < x@.len() ==> wf_value(#[trigger] x@[i]),
        AttrValue::M(x) => wf_entries_shallow(x@) && forall|i: int| 0 <= i < x@.len() ==> wf_value(#[trigger] x@[i].1),
        _ => true,
    }
}

/// No two entries of `x` share a name.
pub open spec fn wf_entries_shallow(x: Seq<(String, AttrValue)>) -> bool {
    forall|i: int, j: int| #![trigger x[i], x[j]] 0 <= i < x.len() && 0 <= j < x.len() && x[i].0@ == x[j].0@ ==> i == j
}

/// An attribute map whose names are unique, at every depth.
pub open spec fn wf_entries(x: Seq<(String, AttrValue)>) -> bool {
    wf_entries_shallow(x) && forall|i: int| 0 <= i < x.len() ==> wf_value(#[trigger] x[i].1)
}

/// Every well-formed value equals itself.
pub proof fn lemma_same_value_refl(a: AttrValue)
    requires
        wf_value(a),
    ensures
        same_value(a, a),
    decreases a,
{
    broadcast use vstd::std_specs::vec::axiom_vec_decreases_to_view, vstd::seq::axiom_seq_index_decreases;
    match a {
        AttrValue::L(x) => {
            assert forall|i: int| 0 <= i < x@.len() implies same_value(#[trigger] x@[i], x@[i]) by {
                assert(decreases_to!(a => a->L_0@[i]));
                lemma_same_value_refl(x@[i]);
            }
        },
        AttrValue::M(x) => {
            assert forall|i: int, j: int| #![trigger x@[i], x@[j]]
                0 <= i < x@.len() && 0 <= j < x@.len() && x@[i].0@ == x@[j].0@ implies same_value(x@[i].1, x@[j].1) by {
                assert(i == j);
                assert(decreases_to!(a => a->M_0@[i].1));
                lemma_same_value_refl(x@[i].1);
            }
            assert forall|i: int| 0 <= i < x@.len() implies names_of(x@).contains(#[trigger] x@[i].0@) by {
                assert(names_of(x@)[i] == x@[i].0@);
            }
        },
        AttrValue::Ss(x) => {},
        AttrValue::Ns(x) => {},
        AttrValue::Bs(x) => {},
        _ => {},
    }
}

/// Every well-formed attribute map equals itself: a handler that leaves the
/// attributes as loaded causes no write.
pub proof fn lemma_same_entries_refl(x: Seq<(String, AttrValue)>)
    requires
        wf_entries(x),
    ensures
        same_entries(x, x),
{
    assert forall|i: int, j: int| #![trigger x[i], x[j]]
        0 <= i < x.len() && 0 <= j < x.len() && x[i].0@ == x[j].0@ implies same_value(x[i].1, x[j].1) by {
        assert(i == j);
        lemma_same_value_refl(x[i].1);
    }
    assert forall|i: int| 0 <= i < x.len() implies names_of(x).contains(#[trigger] x[i].0@) by {
        assert(names_of(x)[i] == x[i].0@);
    }
}

fn eq_bytes(x: &Vec<u8>, y: &Vec<u8>) -> (r: bool)
    ensures
        r == (x@ == y@),
{
    if x.len() != y.len() {
        return false;
    }
    let mut i: usize = 0;
    while i < x.len()
        invariant
            i <= x@.len(),
            x@.len() == y@.len(),
            forall|k: int| 0 <= k < i ==> x@[k] == y@[k],
        decreases x@.len() - i,
    {
        if x[i] != y[i] {
            return false;
        }
        i = i + 1;
    }
    assert(x@ =~= y@);
    true
}

fn eq_texts(x: &Vec<String>, y: &Vec<String>) -> (r: bool)
    ensures
        r == (texts_of(x@) == texts_of(y@)),
{
    if x.len() != y.len() {
        assert(texts_of(x@).len() != texts_of(y@).len());
        return false;
    }
    let mut i: usize = 0;
    while i < x.len()
        invariant
            i <= x@.len(),
            x@.len() == y@.len(),
            forall|k: int| 0 <= k < i ==> x@[k]@ == y@[k]@,
        decreases x@.len() - i,
    {
        if !(x[i] == y[i]) {
            assert(texts_of(x@)[i as int] != texts_of(y@)[i as int]);
            return false;
        }
        i = i + 1;
    }
    assert(texts_of(x@) =~= texts_of(y@));
    true
}

fn eq_blobs(x: &Vec<Vec<u8>>, y: &Vec<Vec<u8>>) -> (r: bool)
    ensures
        r == (blobs_of(x@) == blobs_of(y@)),
{
    if x.len() != y.len() {
        assert(blobs_of(x@).len() != blobs_of(y@).len());
        return false;
    }
    let mut i: usize = 0;
    while i < x.len()
        invariant
            i <= x@.len(),
            x@.len() == y@.len(),
            forall|k: int| 0 <= k < i ==> x@[k]@ == y@[k]@,
        decreases x@.len() - i,
    {
        if !eq_bytes(&x[i], &y[i]) {
            assert(blobs_of(x@)[i as int] != blobs_of(y@)[i as int]);
            return false;
        }
        i = i + 1;
    }
    assert(blobs_of(x@) =~= blobs_of(y@));
    true
}

fn names_in(x: &Vec<(String, AttrValue)>, y: &Vec<(String, AttrValue)>) -> (r: bool)
    ensures
        r == names_within(x@, y@),
{
    let mut i: usize = 0;
    while i < x.len()
        invariant
            i <= x@.len(),
            forall|k: int| 0 <= k < i ==> names_of(y@).contains(#[trigger] x@[k].0@),
        decreases x@.len() - i,
    {
        let mut found = false;
        let mut j: usize = 0;
        while j < y.len() && !found
            invariant
                i < x@.len(),
                j <= y@.len(),
                found ==> names_of(y@).contains(x@[i as int].0@),
                !found ==> forall|m: int| 0 <= m < j ==> names_of(y@)[m] != x@[i as int].0@,
            decreases y@.len() - j,
        {
            if x[i].0 == y[j].0 {
                found = true;
                assert(names_of(y@)[j as int] == x@[i as int].0@);
            }
            j = j + 1;
        }
        if !found {
            assert(!names_of(y@).contains(x@[i as int].0@));
            return false;
        }
        i = i + 1;
    }
    true
}

/// Whether two values are equal, as [`same_value`] says.
#[verifier::rlimit(80)]
pub fn eq_value(a: &AttrValue, b: &AttrValue) -> (r: bool)
    ensures
        r == same_value(*a, *b),
    decreases a,
{
    let ghost ga: AttrValue = *a;
    match a {
        AttrValue::S(x) => match b {
            AttrValue::S(y) => *x == *y,
            _ => false,
        },
        AttrValue::N(x) => match b {
            AttrValue::N(y) => *x == *y,
            _ => false,
        },
        AttrValue::B(x) => match b {
            AttrValue::B(y) => eq_bytes(x, y),
            _ => false,
        },
        AttrValue::Bool(x) => match b {
            AttrValue::Bool(y) => *x == *y,
            _ => false,
        },
        AttrValue::Null(x) => match b {
            AttrValue::Null(y) => *x == *y,
            _ => false,
        },
        AttrValue::Ss(x) => match b {
            AttrValue::Ss(y) => eq_texts(x, y),
            _ => false,
        },
        AttrValue::Ns(x) => match b {
            AttrValue::Ns(y) => eq_texts(x, y),
            _ => false,
        },
        AttrValue::Bs(x) => match b {
            AttrValue::Bs(y) => eq_blobs(x, y),
            _ => false,
        },
        AttrValue::L(x) => match b {
            AttrValue::L(y) => {
                if x.len() != y.len() {
                    return false;
                }
                let mut i: usize = 0;
                while i < x.len()
                    invariant
                        i <= x@.len(),
                        x@.len() == y@.len(),
                        ga == AttrValue::L(*x),
                        ga == *a,
                        *b == AttrValue::L(*y),
                        forall|k: int| 0 <= k < i ==> same_value(#[trigger] x@[k], y@[k]),
                    decreases x@.len() - i,
                {
                    proof {
                        broadcast use vstd::std_specs::vec::axiom_vec_decreases_to_view, vstd::seq::axiom_seq_index_decreases;
                        assert(decreases_to!(ga => ga->L_0@[i as int]));
                        assert(ga->L_0@[i as int] == x@[i as int]);
                    }
                    if !eq_value(&x[i], &y[i]) {
                        assert(!same_value(x@[i as int], y@[i as int]));
                        return false;
                    }
                    i = i + 1;
                }
                assert(same_value(*a, *b));
                true
            },
            _ => false,
        },
        AttrValue::M(x) => match b {
            AttrValue::M(y) => {
                if x.len() != y.len() {
                    return false;
                }
                if !names_in(x, y) || !names_in(y, x) {
                    return false;
                }
                let mut i: usize = 0;
                while i < x.len()
                    invariant
                        i <= x@.len(),
                        ga == AttrValue::M(*x),
                        ga == *a,
                        *b == AttrValue::M(*y),
                        x@.len() == y@.len(),
                        same_names(x@, y@),
                        forall|k: int, j: int| #![trigger x@[k], y@[j]]
                            0 <= k < i && 0 <= j < y@.len() && x@[k].0@ == y@[j].0@
                                ==> same_value(x@[k].1, y@[j].1),
                    decreases x@.len() - i,
                {
                    let mut j: usize = 0;
                    while j < y.len()
                        invariant
                            i < x@.len(),
                            j <= y@.len(),
                            ga == AttrValue::M(*x),
                            ga == *a,
                            *b == AttrValue::M(*y),
                            forall|m: int| #![trigger y@[m]] 0 <= m < j && x@[i as int].0@ == y@[m].0@
                                ==> same_value(x@[i as int].1, y@[m].1),
                        decreases y@.len() - j,
                    {
                        if x[i].0 == y[j].0 {
                            proof {
                                broadcast use vstd::std_specs::vec::axiom_vec_decreases_to_view, vstd::seq::axiom_seq_index_decreases;
                                assert(decreases_to!(ga => ga->M_0@[i as int].1));
                                assert(ga->M_0@[i as int].1 == x@[i as int].1);
                            }
                            if !eq_value(&x[i].1, &y[j].1) {
                                assert(x@[i as int].0@ == y@[j as int].0@);
                                assert(!same_value(*a, *b));
                                return false;
                            }
                        }
                        j = j + 1;
                    }
                    i = i + 1;
                }
                true
            },
            _ => false,
        },
    }
}

/// Whether two attribute maps are equal, as [`same_entries`] says.
pub fn same_attributes(x: &Vec<(String, AttrValue)>, y: &Vec<(String, AttrValue)>) -> (r: bool)
    ensures
        r == same_entries(x@, y@),
{
    if x.len() != y.len() {
        return false;
    }
    if !names_in(x, y) || !names_in(y, x) {
        return false;
    }
    let mut i: usize = 0;
    while i < x.len()
        invariant
            i <= x@.len(),
            x@.len() == y@.len(),
            same_names(x@, y@),
            forall|k: int, j: int| #![trigger x@[k], y@[j]]
                0 <= k < i && 0 <= j < y@.len() && x@[k].0@ == y@[j].0@
                    ==> same_value(x@[k].1, y@[j].1),
        decreases x@.len() - i,
    {
        let mut j: usize = 0;
        while j < y.len()
            invariant
                i < x@.len(),
                j <= y@.len(),
                forall|m: int| #![trigger y@[m]] 0 <= m < j && x@[i as int].0@ == y@[m].0@
                    ==> same_value(x@[i as int].1, y@[m].1),
            decreases y@.len() - j,
        {
            if x[i].0 == y[j].0 {
                if !eq_value(&x[i].1, &y[j].1) {
                    assert(x@[i as int].0@ == y@[j as int].0@);
                    assert(!same_entries(x@, y@));
                    return false;
                }
            }
            j = j + 1;
        }
        i = i + 1;
    }
    true
}

} // verus!

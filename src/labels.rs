//! Optional labels for the sides of a conflict.

use std::sync::Arc;

use vstd::prelude::*;

use crate::merge::{fully_simplified, is_conflict_shape, sides_of, simplified_positions, Merge};
use vstd::std_specs::cmp::PartialEqSpec;
use vstd::string::StringExecFns;

verus! {

/// The text of each label in a sequence of labels.
pub open spec fn label_text(terms: Seq<String>) -> Seq<Seq<char>> {
    terms.map_values(|s: String| s@)
}

/// Whether some label is the empty string.
pub open spec fn has_empty_label(labels: Seq<Seq<char>>) -> bool {
    exists|i: int| 0 <= i < labels.len() && #[trigger] labels[i].len() == 0
}

/// The labels a conflict keeps: none for a resolved merge (a single term) or
/// when some label is empty, all of them otherwise.
pub open spec fn normalized(labels: Seq<Seq<char>>) -> Option<Seq<Seq<char>>> {
    if labels.len() == 1 || has_empty_label(labels) {
        None
    } else {
        Some(labels)
    }
}

/// What holds of every label set that is present: conflict-shaped, more than
/// one term (not resolved), and no empty label.
pub open spec fn valid_labels(labels: Seq<Seq<char>>) -> bool {
    &&& labels.len() % 2 == 1
    &&& labels.len() > 1
    &&& !has_empty_label(labels)
}

/// The labels at `positions`, in that order.
pub open spec fn labels_at(labels: Seq<Seq<char>>, positions: Seq<int>) -> Seq<Seq<char>> {
    positions.map_values(|p: int| labels[p])
}

/// The text of each label in a merge of borrowed labels.
pub open spec fn str_label_text(terms: Seq<&str>) -> Seq<Seq<char>> {
    terms.map_values(|s: &str| s@)
}

/// Owned copies of borrowed labels, in the same layout.
fn owned_labels(labels: &Merge<&str>) -> (r: Merge<String>)
    ensures
        label_text(r@) == str_label_text(labels@),
{
    let terms = labels.as_slice();
    let mut owned: Vec<String> = Vec::new();
    let mut i: usize = 0;
    while i < terms.len()
        invariant
            i <= terms@.len(),
            owned@.len() == i,
            forall|j: int| 0 <= j < i ==> #[trigger] owned@[j]@ == terms@[j]@,
        decreases terms.len() - i,
    {
        owned.push(terms[i].to_owned());
        i = i + 1;
    }
    assert(label_text(owned@) =~= str_label_text(terms@));
    Merge::from_vec(owned)
}

/// How a label is written in a debug rendering.
pub uninterp spec fn debug_quoted(label: Seq<char>) -> Seq<char>;

/// Relies on the `Debug` impl of `str`: the label in double quotes, with
/// Rust's escapes; the result depends on the text alone.
#[verifier::external_body]
fn quoted(label: &str) -> (r: String)
    ensures
        r@ == debug_quoted(label@),
{
    format!("{:?}", label)
}

/// The labels as a debug rendering writes a list of them: each quoted, with
/// `", "` between them.
pub open spec fn quoted_list(labels: Seq<Seq<char>>) -> Seq<char>
    decreases labels.len(),
{
    if labels.len() == 0 {
        Seq::empty()
    } else if labels.len() == 1 {
        debug_quoted(labels[0])
    } else {
        quoted_list(labels.drop_last()) + ", "@ + debug_quoted(labels.last())
    }
}

/// The debug rendering of labels: `Unlabeled`, or `Labeled([...])` with the
/// labels in their flat layout.
pub open spec fn debug_rendering(labels: Option<Seq<Seq<char>>>) -> Seq<char> {
    match labels {
        Some(t) => "Labeled(["@ + quoted_list(t) + "])"@,
        None => "Unlabeled"@,
    }
}

/// Optionally, one label for each term of a conflict. Resolved merges are
/// never labeled and no label is empty. The labels are shared between clones.
#[derive(Debug)]
pub struct ConflictLabels {
    labels: Option<Arc<Merge<String>>>,
}

impl View for ConflictLabels {
    type V = Option<Seq<Seq<char>>>;

    closed spec fn view(&self) -> Option<Seq<Seq<char>>> {
        match self.labels {
            Some(m) => Some(label_text(m@)),
            None => None,
        }
    }
}

/// Relies on `Arc::unwrap_or_clone`: it hands back the shared value itself,
/// or a clone of it, whose labels have the same text.
#[verifier::external_body]
fn unwrap_or_clone_labels(shared: Arc<Merge<String>>) -> (r: Merge<String>)
    ensures
        label_text(r@) == label_text(shared@),
{
    Arc::unwrap_or_clone(shared)
}

/// Relies on `Arc::clone`: a second handle to the same shared labels.
#[verifier::external_body]
fn share_labels(shared: &Arc<Merge<String>>) -> (r: Arc<Merge<String>>)
    ensures
        r == *shared,
{
    Arc::clone(shared)
}

impl Clone for ConflictLabels {
    /// Another handle to the same labels; the labels themselves are not copied.
    fn clone(&self) -> (r: Self)
        ensures
            r@ == self@,
            self@ matches Some(t) ==> valid_labels(t),
    {
        proof { use_type_invariant(self); }
        match &self.labels {
            Some(shared) => ConflictLabels { labels: Some(share_labels(shared)) },
            None => ConflictLabels { labels: None },
        }
    }
}

impl ConflictLabels {
    #[verifier::type_invariant]
    spec fn well_formed(self) -> bool {
        self.labels matches Some(m) ==> valid_labels(label_text(m@))
    }

    /// No labels.
    pub fn unlabeled() -> (r: Self)
        ensures
            r@ is None,
    {
        ConflictLabels { labels: None }
    }

    /// The labels that `new` makes of `labels`.
    pub closed spec fn spec_new(labels: Merge<String>) -> Self {
        if normalized(label_text(labels@)) is Some {
            ConflictLabels { labels: Some(Arc::new(labels)) }
        } else {
            ConflictLabels { labels: None }
        }
    }

    /// Labels from a merge of labels. A resolved merge, or one with an empty
    /// label, gives no labels.
    pub fn new(labels: Merge<String>) -> (r: Self)
        ensures
            r@ == normalized(label_text(labels@)),
            r == Self::spec_new(labels),
            r@ matches Some(t) ==> valid_labels(t),
    {
        let terms = labels.as_slice();
        let mut any_empty = false;
        let mut i: usize = 0;
        while i < terms.len()
            invariant
                terms@ == labels@,
                i <= terms@.len(),
                any_empty == has_empty_label(label_text(terms@).subrange(0, i as int)),
            decreases terms.len() - i,
        {
            let ghost before = label_text(terms@).subrange(0, i as int);
            let ghost after = label_text(terms@).subrange(0, i + 1);
            assert(after == before.push(terms@[i as int]@));
            if terms[i].as_str().is_empty() {
                any_empty = true;
                assert(after[i as int].len() == 0);
            } else if any_empty {
                let ghost j = choose|j: int| 0 <= j < before.len() && #[trigger] before[j].len() == 0;
                assert(after[j].len() == 0);
            } else {
                assert forall|j: int| 0 <= j < after.len() implies #[trigger] after[j].len() != 0 by {
                    if j < i {
                        assert(after[j] == before[j]);
                    }
                }
            }
            i = i + 1;
        }
        assert(label_text(terms@).subrange(0, terms@.len() as int) == label_text(terms@));
        assert(label_text(labels@).len() == labels@.len());
        if labels.is_resolved() || any_empty {
            ConflictLabels { labels: None }
        } else {
            ConflictLabels { labels: Some(Arc::new(labels)) }
        }
    }

    /// Labels from their flat layout (adds and removes interleaved); an empty
    /// list gives no labels.
    pub fn from_vec(labels: Vec<String>) -> (r: Self)
        requires
            labels@.len() == 0 || is_conflict_shape(labels@),
        ensures
            r@ == (if labels@.len() == 0 {
                None
            } else {
                normalized(label_text(labels@))
            }),
            r@ matches Some(t) ==> valid_labels(t),
    {
        if labels.len() == 0 {
            Self::unlabeled()
        } else {
            Self::new(Merge::from_vec(labels))
        }
    }

    /// Whether there are labels.
    pub fn is_present(&self) -> (r: bool)
        ensures
            r == self@ is Some,
            self@ matches Some(t) ==> valid_labels(t),
    {
        proof { use_type_invariant(self); }
        self.labels.is_some()
    }

    /// The number of labeled sides, if there are labels.
    pub fn num_sides(&self) -> (r: Option<usize>)
        ensures
            r == (match self@ {
                Some(t) => Some(sides_of(t) as usize),
                None => None,
            }),
            self@ matches Some(t) ==> valid_labels(t),
    {
        proof { use_type_invariant(self); }
        match &self.labels {
            Some(m) => Some(m.num_sides()),
            None => None,
        }
    }

    /// The labels as a merge, if there are any.
    pub fn as_merge(&self) -> (r: Option<&Merge<String>>)
        ensures
            r is Some <==> self@ is Some,
            r matches Some(m) ==> self@ == Some(label_text(m@)),
            self@ matches Some(t) ==> valid_labels(t),
    {
        proof { use_type_invariant(self); }
        match &self.labels {
            Some(m) => Some(&**m),
            None => None,
        }
    }

    /// The labels as an owned merge, if there are any; they are copied only
    /// where another handle still shares them.
    pub fn into_merge(self) -> (r: Option<Merge<String>>)
        ensures
            r is Some <==> self@ is Some,
            r matches Some(m) ==> self@ == Some(label_text(m@)),
            self@ matches Some(t) ==> valid_labels(t),
    {
        proof { use_type_invariant(&self); }
        match self.labels {
            Some(m) => Some(unwrap_or_clone_labels(m)),
            None => None,
        }
    }

    /// The labels in their flat layout; empty where there are none.
    pub fn as_slice(&self) -> (r: &[String])
        ensures
            label_text(r@) == (match self@ {
                Some(t) => t,
                None => Seq::empty(),
            }),
            self@ matches Some(t) ==> valid_labels(t),
    {
        proof { use_type_invariant(self); }
        match &self.labels {
            Some(m) => m.as_slice(),
            None => &[],
        }
    }

    /// The label of the side at `index`.
    pub fn get_add(&self, index: usize) -> (r: Option<&str>)
        ensures
            r is Some <==> (self@ matches Some(t) && index < sides_of(t)),
            r matches Some(s) ==> s@ == self@->0[2 * index],
            self@ matches Some(t) ==> valid_labels(t),
            r matches Some(s) ==> s@.len() > 0,
    {
        proof { use_type_invariant(self); }
        match &self.labels {
            Some(m) => match m.get_add(index) {
                Some(label) => Some(label.as_str()),
                None => None,
            },
            None => None,
        }
    }

    /// The label of the base at `index`.
    pub fn get_remove(&self, index: usize) -> (r: Option<&str>)
        ensures
            r is Some <==> (self@ matches Some(t) && index < t.len() / 2),
            r matches Some(s) ==> s@ == self@->0[2 * index + 1],
            self@ matches Some(t) ==> valid_labels(t),
            r matches Some(s) ==> s@.len() > 0,
    {
        proof { use_type_invariant(self); }
        match &self.labels {
            Some(m) => match m.get_remove(index) {
                Some(label) => Some(label.as_str()),
                None => None,
            },
            None => None,
        }
    }

    /// Simplifies `merge`, which has as many sides as there are labels, and
    /// keeps each label with its term: terms cancel where their values are
    /// equal, whatever their labels, and the labels of the terms that remain
    /// come along in the same order. The labels of a resolved result are
    /// dropped.
    pub fn simplify_with<T: PartialEq + Clone>(&self, merge: &Merge<T>) -> (r: (Self, Merge<T>))
        requires
            T::obeys_eq_spec(),
            self@ matches Some(t) ==> t.len() == merge@.len(),
        ensures
            r.1@.len() == simplified_positions(merge@).len(),
            forall|k: int|
                0 <= k < r.1@.len() ==> cloned(
                    merge@[simplified_positions(merge@)[k]],
                    #[trigger] r.1@[k],
                ),
            fully_simplified(merge@, simplified_positions(merge@)),
            self@ is Some ==> (r.0@ is Some <==> r.1@.len() > 1),
            r.0@ matches Some(t) ==> valid_labels(t),
            r.0@ == (match self@ {
                Some(t) => normalized(labels_at(t, simplified_positions(merge@))),
                None => None,
            }),
    {
        match &self.labels {
            Some(labels) => {
                let positions = merge.simplified_positions();
                let ghost pos = simplified_positions(merge@);
                proof {
                    let ints = positions@.map_values(|j: usize| j as int);
                    assert forall|k: int| 0 <= k < positions@.len() implies ints[k]
                        == positions@[k] as int by {}
                }
                let kept = labels.terms_at(&positions);
                let simplified = merge.terms_at(&positions);
                let ghost t = label_text(labels@);
                assert(label_text(kept@) =~= labels_at(t, pos));
                proof {
                    use_type_invariant(self);
                    let ints = positions@.map_values(|j: usize| j as int);
                    assert(ints == pos);
                    let kept_text = labels_at(t, pos);
                    assert forall|k: int| 0 <= k < kept_text.len() implies #[trigger] kept_text[k].len()
                        != 0 by {
                        assert(0 <= pos[k] < t.len());
                        if t[pos[k]].len() == 0 {
                            assert(has_empty_label(t));
                        }
                    }
                    assert(!has_empty_label(kept_text));
                }
                (Self::new(kept), simplified)
            },
            None => (Self::unlabeled(), merge.simplify()),
        }
    }

    /// The debug rendering: `Unlabeled`, or `Labeled` with the flat list of
    /// labels, as in `Labeled(["left", "base", "right"])`.
    pub fn debug_string(&self) -> (r: String)
        ensures
            r@ == debug_rendering(self@),
    {
        match &self.labels {
            Some(m) => {
                let terms = m.as_slice();
                let ghost text = label_text(terms@);
                let mut out = String::from_str("Labeled([");
                let mut i: usize = 0;
                while i < terms.len()
                    invariant
                        text == label_text(terms@),
                        i <= terms@.len(),
                        out@ == "Labeled(["@ + quoted_list(text.subrange(0, i as int)),
                    decreases terms.len() - i,
                {
                    let ghost done = text.subrange(0, i as int);
                    let ghost next = text.subrange(0, i + 1);
                    assert(next.drop_last() =~= done);
                    assert(next.last() == terms@[i as int]@);
                    if i > 0 {
                        out.append(", ");
                    } else {
                        assert(done =~= Seq::<Seq<char>>::empty());
                        assert(quoted_list(done) =~= Seq::<char>::empty());
                    }
                    let label = quoted(terms[i].as_str());
                    out.append(label.as_str());
                    i = i + 1;
                }
                assert(text.subrange(0, terms@.len() as int) =~= text);
                out.append("])");
                out
            },
            None => String::from_str("Unlabeled"),
        }
    }
}

impl PartialEq for ConflictLabels {
    /// Equal when both are unlabeled, or both hold the same label text.
    fn eq(&self, other: &Self) -> (r: bool) {
        if self.is_present() != other.is_present() {
            return false;
        }
        let a = self.as_slice();
        let b = other.as_slice();
        if a.len() != b.len() {
            assert(label_text(a@).len() != label_text(b@).len());
            return false;
        }
        let mut i: usize = 0;
        while i < a.len()
            invariant
                a@.len() == b@.len(),
                i <= a@.len(),
                self@ is Some == other@ is Some,
                label_text(a@) == (match self@ {
                    Some(t) => t,
                    None => Seq::empty(),
                }),
                label_text(b@) == (match other@ {
                    Some(t) => t,
                    None => Seq::empty(),
                }),
                forall|j: int| 0 <= j < i ==> #[trigger] a@[j]@ == b@[j]@,
            decreases a.len() - i,
        {
            if !(a[i] == b[i]) {
                assert(label_text(a@)[i as int] != label_text(b@)[i as int]);
                assert(label_text(a@) != label_text(b@));
                assert(label_text(a@).len() == a@.len());
                assert(self@ is Some && other@ is Some);
                return false;
            }
            i = i + 1;
        }
        assert(label_text(a@) =~= label_text(b@));
        true
    }
}

impl vstd::std_specs::cmp::PartialEqSpecImpl for ConflictLabels {
    open spec fn obeys_eq_spec() -> bool {
        true
    }

    open spec fn eq_spec(&self, other: &ConflictLabels) -> bool {
        self@ == other@
    }
}

impl Eq for ConflictLabels {
}

impl From<Merge<String>> for ConflictLabels {
    /// The same as `new`.
    fn from(value: Merge<String>) -> (r: Self)
        ensures
            r@ == normalized(label_text(value@)),
    {
        Self::new(value)
    }
}

impl vstd::std_specs::convert::FromSpecImpl<Merge<String>> for ConflictLabels {
    open spec fn obeys_from_spec() -> bool {
        true
    }

    closed spec fn from_spec(v: Merge<String>) -> ConflictLabels {
        ConflictLabels::spec_new(v)
    }
}

impl From<Option<Merge<String>>> for ConflictLabels {
    /// No labels for no merge; otherwise the same as `new`.
    fn from(value: Option<Merge<String>>) -> (r: Self)
        ensures
            r@ == (match value {
                Some(m) => normalized(label_text(m@)),
                None => None,
            }),
    {
        match value {
            Some(m) => Self::new(m),
            None => Self::unlabeled(),
        }
    }
}

impl vstd::std_specs::convert::FromSpecImpl<Option<Merge<String>>> for ConflictLabels {
    open spec fn obeys_from_spec() -> bool {
        true
    }

    closed spec fn from_spec(v: Option<Merge<String>>) -> ConflictLabels {
        match v {
            Some(m) => ConflictLabels::spec_new(m),
            None => ConflictLabels { labels: None },
        }
    }
}

impl<'a> From<Merge<&'a str>> for ConflictLabels {
    /// The same as `new` on owned copies of the labels.
    fn from(value: Merge<&'a str>) -> (r: Self)
        ensures
            r@ == normalized(str_label_text(value@)),
    {
        Self::new(owned_labels(&value))
    }
}

impl<'a> vstd::std_specs::convert::FromSpecImpl<Merge<&'a str>> for ConflictLabels {
    /// Copies of the labels are equal to them in text only, so the result is
    /// described by the view alone, in the `ensures` of `from`.
    open spec fn obeys_from_spec() -> bool {
        false
    }

    closed spec fn from_spec(v: Merge<&'a str>) -> ConflictLabels {
        choose|r: ConflictLabels| r@ == normalized(str_label_text(v@))
    }
}

impl<'a> From<Option<Merge<&'a str>>> for ConflictLabels {
    /// No labels for no merge; otherwise the same as `new` on owned copies.
    fn from(value: Option<Merge<&'a str>>) -> (r: Self)
        ensures
            r@ == (match value {
                Some(m) => normalized(str_label_text(m@)),
                None => None,
            }),
    {
        match value {
            Some(m) => Self::new(owned_labels(&m)),
            None => Self::unlabeled(),
        }
    }
}

impl<'a> vstd::std_specs::convert::FromSpecImpl<Option<Merge<&'a str>>> for ConflictLabels {
    /// As for a merge of borrowed labels, the view in the `ensures` of `from`
    /// describes the result.
    open spec fn obeys_from_spec() -> bool {
        false
    }

    closed spec fn from_spec(v: Option<Merge<&'a str>>) -> ConflictLabels {
        choose|r: ConflictLabels|
            r@ == (match v {
                Some(m) => normalized(str_label_text(m@)),
                None => None,
            })
    }
}

impl From<Option<ConflictLabels>> for ConflictLabels {
    /// No labels for no value; otherwise the value itself.
    fn from(value: Option<ConflictLabels>) -> (r: Self)
        ensures
            r@ == (match value {
                Some(c) => c@,
                None => None,
            }),
    {
        match value {
            Some(c) => c,
            None => Self::unlabeled(),
        }
    }
}

impl vstd::std_specs::convert::FromSpecImpl<Option<ConflictLabels>> for ConflictLabels {
    open spec fn obeys_from_spec() -> bool {
        true
    }

    closed spec fn from_spec(v: Option<ConflictLabels>) -> ConflictLabels {
        match v {
            Some(c) => c,
            None => ConflictLabels { labels: None },
        }
    }
}

/// A list of labels in conflict layout with more than one term and no empty
/// label is kept whole: every label stays, in order, and the number of sides
/// is one more than half the length.
pub proof fn lemma_positional_labels_kept(labels: Seq<String>)
    requires
        labels.len() > 1,
        is_conflict_shape(labels),
        forall|i: int| 0 <= i < labels.len() ==> (#[trigger] labels[i])@.len() > 0,
    ensures
        normalized(label_text(labels)) == Some(label_text(labels)),
        sides_of(label_text(labels)) == labels.len() / 2 + 1,
{
    assert(!has_empty_label(label_text(labels))) by {
        assert forall|i: int| 0 <= i < labels.len() implies #[trigger] label_text(labels)[i].len() > 0 by {
            assert(labels[i]@.len() > 0);
        }
    }
}

/// Labels that are present are already normalized: building a label set again
/// from them, through `new` or `from_vec`, gives the same labels.
pub proof fn lemma_present_labels_normalized(labels: Seq<Seq<char>>)
    requires
        valid_labels(labels),
    ensures
        normalized(labels) == Some(labels),
        sides_of(labels) >= 2,
{
}

/// Labels with an empty label anywhere are dropped.
pub proof fn lemma_empty_label_drops_labels(labels: Seq<String>, i: int)
    requires
        0 <= i < labels.len(),
        labels[i]@.len() == 0,
    ensures
        normalized(label_text(labels)) is None,
{
    assert(label_text(labels)[i].len() == 0);
}

/// The labels of a resolved merge (a single term) are dropped.
pub proof fn lemma_resolved_drops_labels(labels: Seq<String>)
    requires
        labels.len() == 1,
    ensures
        normalized(label_text(labels)) is None,
{
}

/// Presence, the borrowed merge and the number of sides agree: all three are
/// absent exactly when there are no labels.
pub proof fn lemma_presence_agrees(c: ConflictLabels)
    ensures
        (c@ is None) <==> (match c@ {
            Some(t) => Some(sides_of(t) as usize),
            None => None::<usize>,
        }) is None,
{
}

/// Taking the labels out again, borrowed or owned, gives back the labels they
/// were made from, once normalized.
pub proof fn lemma_labels_round_trip(labels: Merge<String>, borrowed: Merge<String>, owned: Merge<String>)
    requires
        normalized(label_text(labels@)) == Some(label_text(borrowed@)),
        normalized(label_text(labels@)) == Some(label_text(owned@)),
    ensures
        label_text(owned@) == label_text(borrowed@),
        label_text(owned@) == label_text(labels@),
{
}

/// Equality of labels is reflexive, symmetric and transitive, and all
/// unlabeled values are equal however they were made.
pub proof fn lemma_equality(a: ConflictLabels, b: ConflictLabels, c: ConflictLabels)
    ensures
        a.eq_spec(&a),
        a.eq_spec(&b) ==> b.eq_spec(&a),
        a.eq_spec(&b) && b.eq_spec(&c) ==> a.eq_spec(&c),
        a@ is None && b@ is None ==> a.eq_spec(&b),
{
}

} // verus!

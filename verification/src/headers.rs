//! The header fields of a request: an ordered mapping from name to value.
//!
//! Names are kept as they were received and compared letter by letter. A name
//! occurs at most once. The fields stand in the order in which they were last
//! written: writing a name again takes its old field out and puts the new one
//! at the end.

use vstd::prelude::*;
use vstd::string::*;
use vstd::utf8::*;

verus! {

/// Whether no name occurs twice in `entries`.
pub open spec fn names_differ(entries: Seq<(Seq<char>, Seq<char>)>) -> bool {
    forall|i: int, j: int|
        0 <= i < j < entries.len() ==> (#[trigger] entries[i]).0 != (#[trigger] entries[j]).0
}

/// Whether `i` is the first entry of `entries` that is named `name`.
pub open spec fn is_first_named(
    entries: Seq<(Seq<char>, Seq<char>)>,
    name: Seq<char>,
    i: int,
) -> bool {
    &&& 0 <= i < entries.len()
    &&& entries[i].0 == name
    &&& forall|j: int| 0 <= j < i ==> (#[trigger] entries[j]).0 != name
}

/// The place of the first entry named `name`, if there is one.
pub open spec fn position(entries: Seq<(Seq<char>, Seq<char>)>, name: Seq<char>) -> Option<int> {
    if exists|i: int| is_first_named(entries, name, i) {
        Some(choose|i: int| is_first_named(entries, name, i))
    } else {
        None
    }
}

/// The value that `entries` gives to `name`, if it gives one.
pub open spec fn value_of(entries: Seq<(Seq<char>, Seq<char>)>, name: Seq<char>) -> Option<
    Seq<char>,
> {
    match position(entries, name) {
        Some(i) => Some(entries[i].1),
        None => None,
    }
}

/// `entries` after `name` was written with `value`: an entry of that name is
/// taken out, and the new entry goes to the end.
pub open spec fn put(
    entries: Seq<(Seq<char>, Seq<char>)>,
    name: Seq<char>,
    value: Seq<char>,
) -> Seq<(Seq<char>, Seq<char>)> {
    match position(entries, name) {
        Some(i) => entries.remove(i).push((name, value)),
        None => entries.push((name, value)),
    }
}

/// The first entry of a name is the place that `position` gives.
pub proof fn lemma_position_is(entries: Seq<(Seq<char>, Seq<char>)>, name: Seq<char>, i: int)
    requires
        is_first_named(entries, name, i),
    ensures
        position(entries, name) == Some(i),
{
    let c = choose|c: int| is_first_named(entries, name, c);
    assert(is_first_named(entries, name, c));
    if c < i {
        assert(entries[c].0 != name);
    }
    if i < c {
        assert(entries[i].0 != name);
    }
}

/// A place that `position` gives holds the name, and no earlier place does.
pub proof fn lemma_position_found(entries: Seq<(Seq<char>, Seq<char>)>, name: Seq<char>)
    ensures
        position(entries, name) matches Some(i) ==> is_first_named(entries, name, i),
{
    if exists|i: int| is_first_named(entries, name, i) {
        let c = choose|c: int| is_first_named(entries, name, c);
        assert(is_first_named(entries, name, c));
    }
}

/// Writing keeps names apart.
pub proof fn lemma_put_names_differ(
    entries: Seq<(Seq<char>, Seq<char>)>,
    name: Seq<char>,
    value: Seq<char>,
)
    requires
        names_differ(entries),
    ensures
        names_differ(put(entries, name, value)),
{
    let after = put(entries, name, value);
    lemma_position_found(entries, name);
    match position(entries, name) {
        Some(p) => {
            let kept = entries.remove(p);
            assert forall|i: int, j: int| 0 <= i < j < after.len() implies (#[trigger] after[i]).0
                != (#[trigger] after[j]).0 by {
                let from_i = if i < p { i } else { i + 1 };
                assert(after[i] == kept[i]);
                assert(kept[i] == entries[from_i]);
                if j == kept.len() {
                    assert(entries[from_i].0 != entries[p].0);
                } else {
                    let from_j = if j < p { j } else { j + 1 };
                    assert(after[j] == kept[j]);
                    assert(kept[j] == entries[from_j]);
                }
            }
        },
        None => {
            assert forall|i: int, j: int| 0 <= i < j < after.len() implies (#[trigger] after[i]).0
                != (#[trigger] after[j]).0 by {
                if j == entries.len() {
                    if entries[i].0 == name {
                        lemma_some_first_named(entries, name, i);
                    }
                } else {
                    assert(after[i].0 == entries[i].0);
                    assert(after[j].0 == entries[j].0);
                }
            }
        },
    }
}

/// Where some entry up to `i` is named `name`, a first one is.
pub proof fn lemma_some_first_named(entries: Seq<(Seq<char>, Seq<char>)>, name: Seq<char>, i: int)
    requires
        0 <= i < entries.len(),
        entries[i].0 == name,
    ensures
        position(entries, name) matches Some(p) && p <= i,
    decreases i,
{
    if exists|j: int| 0 <= j < i && (#[trigger] entries[j]).0 == name {
        let j = choose|j: int| 0 <= j < i && (#[trigger] entries[j]).0 == name;
        lemma_some_first_named(entries, name, j);
    } else {
        assert(is_first_named(entries, name, i));
        lemma_position_is(entries, name, i);
    }
}

/// The last write wins: after `name` was written with `value`, that is the
/// value of `name`, and every other name has the value it had.
pub proof fn lemma_put_value_of(
    entries: Seq<(Seq<char>, Seq<char>)>,
    name: Seq<char>,
    value: Seq<char>,
    other: Seq<char>,
)
    requires
        names_differ(entries),
    ensures
        value_of(put(entries, name, value), name) == Some(value),
        other != name ==> value_of(put(entries, name, value), other) == value_of(entries, other),
{
    let after = put(entries, name, value);
    lemma_position_found(entries, name);
    lemma_position_found(entries, other);
    lemma_position_found(after, other);
    let kept = match position(entries, name) {
        Some(p) => entries.remove(p),
        None => entries,
    };
    let n = kept.len() as int;
    assert(after == kept.push((name, value)));
    // No entry that was kept has the name.
    assert forall|j: int| 0 <= j < n implies (#[trigger] kept[j]).0 != name by {
        match position(entries, name) {
            Some(p) => {
                let from = if j < p { j } else { j + 1 };
                assert(kept[j] == entries[from]);
                assert(entries[from].0 != entries[p].0);
            },
            None => {
                if entries[j].0 == name {
                    lemma_some_first_named(entries, name, j);
                }
            },
        }
    }
    assert forall|j: int| 0 <= j < n implies (#[trigger] after[j]).0 != name by {
        assert(after[j] == kept[j]);
    }
    assert(after[n] == (name, value));
    assert(is_first_named(after, name, n));
    lemma_position_is(after, name, n);
    if other != name {
        match position(entries, other) {
            Some(q) => {
                // Where the other name stands once the written name is taken out.
                let to = match position(entries, name) {
                    Some(p) => if q < p { q } else { q - 1 },
                    None => q,
                };
                assert(kept[to] == entries[q]);
                assert(after[to] == kept[to]);
                assert forall|j: int| 0 <= j < to implies (#[trigger] after[j]).0 != other by {
                    assert(after[j] == kept[j]);
                    match position(entries, name) {
                        Some(p) => {
                            let from = if j < p { j } else { j + 1 };
                            assert(kept[j] == entries[from]);
                            assert(entries[from].0 != other);
                        },
                        None => {
                            assert(entries[j].0 != other);
                        },
                    }
                }
                assert(is_first_named(after, other, to));
                lemma_position_is(after, other, to);
            },
            None => {
                if let Some(q) = position(after, other) {
                    assert(q < n);
                    assert(after[q] == kept[q]);
                    match position(entries, name) {
                        Some(p) => {
                            let from = if q < p { q } else { q + 1 };
                            assert(kept[q] == entries[from]);
                            lemma_some_first_named(entries, other, from);
                        },
                        None => {
                            lemma_some_first_named(entries, other, q);
                        },
                    }
                }
            },
        }
    }
}

/// Whether two texts are the same text.
pub fn same_text(a: &str, b: &str) -> (same: bool)
    ensures
        same == (a@ == b@),
{
    broadcast use {encode_utf8_decode_utf8, encode_utf8_valid_utf8};

    let x = a.as_bytes();
    let y = b.as_bytes();
    let n: usize = x.len();
    if n != y.len() {
        return false;
    }
    let mut i: usize = 0;
    while i < n
        invariant
            x@ == a.spec_bytes(),
            y@ == b.spec_bytes(),
            n == x@.len(),
            n == y@.len(),
            i <= n,
            forall|k: int| 0 <= k < i ==> x@[k] == y@[k],
        decreases n - i,
    {
        if x[i] != y[i] {
            return false;
        }
        i += 1;
    }
    proof {
        assert(x@ =~= y@);
        assert(a@ == decode_utf8(a.spec_bytes()));
        assert(b@ == decode_utf8(b.spec_bytes()));
    }
    true
}

/// One header field.
#[derive(Debug)]
pub struct Header {
    /// The field's name, as received.
    pub name: String,
    /// The field's value.
    pub value: String,
}

/// The header fields of a request, in the order in which their names first came.
#[derive(Debug)]
pub struct Headers {
    entries: Vec<Header>,
}

impl View for Headers {
    type V = Seq<(Seq<char>, Seq<char>)>;

    closed spec fn view(&self) -> Seq<(Seq<char>, Seq<char>)> {
        Seq::new(self.entries@.len(), |i: int| (self.entries@[i].name@, self.entries@[i].value@))
    }
}

impl Headers {
    #[verifier::type_invariant]
    spec fn names_apart(self) -> bool {
        names_differ(self@)
    }

    /// An empty mapping.
    pub fn new() -> (headers: Self)
        ensures
            headers@ == Seq::<(Seq<char>, Seq<char>)>::empty(),
    {
        let headers = Headers { entries: Vec::new() };
        assert(headers@ =~= Seq::<(Seq<char>, Seq<char>)>::empty());
        headers
    }

    /// The number of fields. No two of them have the same name.
    pub fn len(&self) -> (n: usize)
        ensures
            n == self@.len(),
            names_differ(self@),
    {
        proof {
            use_type_invariant(self);
        }
        self.entries.len()
    }

    /// The name of the field at place `i`.
    pub fn name_at(&self, i: usize) -> (name: &str)
        requires
            i < self@.len(),
        ensures
            name@ == self@[i as int].0,
    {
        self.entries[i].name.as_str()
    }

    /// The value of the field at place `i`.
    pub fn value_at(&self, i: usize) -> (value: &str)
        requires
            i < self@.len(),
        ensures
            value@ == self@[i as int].1,
    {
        self.entries[i].value.as_str()
    }

    /// The place of the field named `name`.
    pub fn find(&self, name: &str) -> (place: Option<usize>)
        ensures
            place matches Some(i) ==> i < self@.len() && position(self@, name@) == Some(i as int),
            place is None ==> position(self@, name@) is None,
    {
        let n: usize = self.entries.len();
        let mut i: usize = 0;
        while i < n
            invariant
                n == self@.len(),
                n == self.entries@.len(),
                i <= n,
                forall|j: int| 0 <= j < i ==> (#[trigger] self@[j]).0 != name@,
            decreases n - i,
        {
            if same_text(self.entries[i].name.as_str(), name) {
                proof {
                    assert(self@[i as int].0 == name@);
                    lemma_position_is(self@, name@, i as int);
                }
                return Some(i);
            }
            i += 1;
        }
        proof {
            lemma_position_found(self@, name@);
        }
        None
    }

    /// The value of the field named `name`.
    pub fn get(&self, name: &str) -> (value: Option<&str>)
        ensures
            value is Some <==> value_of(self@, name@) is Some,
            value matches Some(v) ==> value_of(self@, name@) == Some(v@),
    {
        match self.find(name) {
            Some(i) => {
                assert(self@[i as int].1 == self.entries@[i as int].value@);
                Some(self.entries[i].value.as_str())
            },
            None => None,
        }
    }

    /// Writes `name` with `value`. A field of that name is taken out; the
    /// new field goes to the end.
    pub fn insert(&mut self, name: String, value: String)
        ensures
            final(self)@ == put(old(self)@, name@, value@),
    {
        proof {
            use_type_invariant(&*self);
            lemma_put_names_differ(self@, name@, value@);
        }
        let ghost before = self@;
        let found = self.find(name.as_str());
        let mut entries: Vec<Header> = Vec::new();
        std::mem::swap(&mut entries, &mut self.entries);
        if let Some(i) = found {
            let _ = entries.remove(i);
        }
        entries.push(Header { name, value });
        proof {
            let after = Seq::new(entries@.len(), |k: int| (entries@[k].name@, entries@[k].value@));
            assert(after =~= put(before, name@, value@));
        }
        self.entries = entries;
    }
}

} // verus!

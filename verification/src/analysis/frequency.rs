//! How often a kind of node occurs, and how often it has a problem.
use vstd::prelude::*;
use vstd::string::*;
use crate::text::{decimal, push_decimal};

verus! {

/// For each kind, how often it has a problem and how often it occurs.
#[verifier::external_body]
pub struct Frequencies {
    map: datafusion_common::HashMap<String, (usize, usize)>,
}

/// The counts that a table holds: problems, and occurrences.
pub uninterp spec fn frequency_counts(m: Frequencies) -> Map<Seq<char>, (nat, nat)>;

impl View for Frequencies {
    type V = Map<Seq<char>, (nat, nat)>;

    open spec fn view(&self) -> Map<Seq<char>, (nat, nat)> {
        frequency_counts(*self)
    }
}

/// `new` of `datafusion_common::HashMap`: the table is empty.
#[verifier::external_body]
fn empty_counts() -> (r: Frequencies)
    ensures
        frequency_counts(r).dom() == Set::<Seq<char>>::empty(),
{
    Frequencies { map: datafusion_common::HashMap::new() }
}

/// `get` of `datafusion_common::HashMap`: what stands under the key, if anything does.
#[verifier::external_body]
fn get_count<'a>(m: &'a Frequencies, kind: &str) -> (r: Option<&'a (usize, usize)>)
    ensures
        match r {
            Some(v) => {
                &&& frequency_counts(*m).contains_key(kind@)
                &&& frequency_counts(*m)[kind@] == (v.0 as nat, v.1 as nat)
            },
            None => !frequency_counts(*m).contains_key(kind@),
        },
{
    m.map.get(kind)
}

/// `get_mut` of `datafusion_common::HashMap`: what stands under the key, if anything does; what is
/// made of it stands there from then on, and nothing else changes.
#[verifier::external_body]
fn get_count_mut<'a>(m: &'a mut Frequencies, kind: &str) -> (r: Option<&'a mut (usize, usize)>)
    ensures
        match r {
            Some(v) => {
                &&& frequency_counts(*old(m)).contains_key(kind@)
                &&& frequency_counts(*old(m))[kind@] == (v.0 as nat, v.1 as nat)
                &&& frequency_counts(*final(m)) == frequency_counts(*old(m)).insert(
                    kind@,
                    (final(v).0 as nat, final(v).1 as nat),
                )
            },
            None => {
                &&& !frequency_counts(*old(m)).contains_key(kind@)
                &&& frequency_counts(*final(m)) == frequency_counts(*old(m))
            },
        },
{
    m.map.get_mut(kind)
}

/// `insert` of `datafusion_common::HashMap`: the value stands under the key, and nothing else
/// changes.
#[verifier::external_body]
fn insert_count(m: &mut Frequencies, kind: String, counts: (usize, usize))
    ensures
        frequency_counts(*final(m)) == frequency_counts(*old(m)).insert(
            kind@,
            (counts.0 as nat, counts.1 as nat),
        ),
{
    m.map.insert(kind, counts);
}

/// Kinds with their counts.
pub open spec fn entry_list(s: Seq<(String, (usize, usize))>) -> Seq<(Seq<char>, (nat, nat))> {
    Seq::new(s.len(), |i: int| (s[i].0@, (s[i].1.0 as nat, s[i].1.1 as nat)))
}

/// Whether `entries` names every kind that is counted, and each of them once, with its counts.
pub open spec fn lists(
    entries: Seq<(Seq<char>, (nat, nat))>,
    m: Map<Seq<char>, (nat, nat)>,
) -> bool {
    &&& forall|i: int|
        0 <= i < entries.len() ==> m.contains_key((#[trigger] entries[i]).0) && m[entries[i].0]
            == entries[i].1
    &&& forall|kind: Seq<char>| #[trigger]
        m.contains_key(kind) ==> exists|i: int|
            0 <= i < entries.len() && (#[trigger] entries[i]).0 == kind
    &&& forall|i: int, j: int|
        0 <= i < j < entries.len() ==> (#[trigger] entries[i]).0 != (#[trigger] entries[j]).0
}

/// `iter` of `datafusion_common::HashMap`: every entry once. The order differs from run to run, and
/// nothing is claimed of it.
#[verifier::external_body]
fn count_entries(m: &Frequencies) -> (r: Vec<(String, (usize, usize))>)
    ensures
        lists(entry_list(r@), frequency_counts(*m)),
{
    m.map.iter().map(|(kind, counts)| (kind.clone(), *counts)).collect()
}

/// The text between quotation marks, with what would not show plainly escaped.
pub uninterp spec fn quoted(text: Seq<char>) -> Seq<char>;

/// The debug text of a `str`: that the text alone decides it.
#[verifier::external_body]
fn quote(text: &str) -> (r: String)
    ensures
        r@ == quoted(text@),
{
    format!("{:?}", text)
}

/// The text of a kind with its counts.
pub open spec fn entry_text(entry: (Seq<char>, (nat, nat))) -> Seq<char> {
    quoted(entry.0) + ": ("@ + decimal(entry.1.0) + ", "@ + decimal(entry.1.1) + ")"@
}

/// The texts of kinds with their counts, with commas between them.
pub open spec fn joined_entries(entries: Seq<(Seq<char>, (nat, nat))>) -> Seq<char>
    decreases entries.len(),
{
    if entries.len() == 0 {
        Seq::empty()
    } else if entries.len() == 1 {
        entry_text(entries[0])
    } else {
        joined_entries(entries.drop_last()) + ", "@ + entry_text(entries.last())
    }
}

/// The text of counts, in the order of `entries`.
pub open spec fn counts_text(entries: Seq<(Seq<char>, (nat, nat))>) -> Seq<char> {
    "{"@ + joined_entries(entries) + "}"@
}

/// The counts with one more occurrence of a kind, with or without a problem.
pub open spec fn counted(
    m: Map<Seq<char>, (nat, nat)>,
    kind: Seq<char>,
    problem: bool,
) -> Map<Seq<char>, (nat, nat)> {
    let one = if problem {
        1nat
    } else {
        0nat
    };
    if m.contains_key(kind) {
        m.insert(kind, (m[kind].0 + one, m[kind].1 + 1))
    } else {
        m.insert(kind, (one, 1))
    }
}

/// Whether `n` more occurrences of every kind can be counted.
pub open spec fn has_room(m: Map<Seq<char>, (nat, nat)>, n: nat) -> bool {
    forall|kind: Seq<char>| #[trigger]
        m.contains_key(kind) ==> m[kind].0 + n <= usize::MAX && m[kind].1 + n <= usize::MAX
}

impl Frequencies {
    /// A table without counts.
    pub fn new() -> (r: Frequencies)
        ensures
            r@ == Map::<Seq<char>, (nat, nat)>::empty(),
    {
        let r: Frequencies = empty_counts();
        assert(r@ =~= Map::<Seq<char>, (nat, nat)>::empty());
        r
    }

    /// How often a kind has a problem and how often it occurs.
    pub fn get(&self, kind: &str) -> (r: Option<(usize, usize)>)
        ensures
            match r {
                Some(counts) => self@.contains_key(kind@) && self@[kind@] == (
                    counts.0 as nat,
                    counts.1 as nat,
                ),
                None => !self@.contains_key(kind@),
            },
    {
        match get_count(self, kind) {
            Some(counts) => Some((counts.0, counts.1)),
            None => None,
        }
    }

    /// Counts one more occurrence of a kind.
    pub fn count(&mut self, kind: &String, problem: bool)
        requires
            old(self)@.contains_key(kind@) ==> {
                &&& old(self)@[kind@].0 < usize::MAX
                &&& old(self)@[kind@].1 < usize::MAX
            },
        ensures
            final(self)@ == counted(old(self)@, kind@, problem),
    {
        let one: usize = if problem {
            1
        } else {
            0
        };
        let known: bool = get_count(self, kind.as_str()).is_some();
        if known {
            match get_count_mut(self, kind.as_str()) {
                Some(counts) => {
                    *counts = (counts.0 + one, counts.1 + 1);
                },
                None => {},
            }
        } else {
            insert_count(self, kind.clone(), (one, 1));
        }
        assert(self@ =~= counted(old(self)@, kind@, problem));
    }

    /// Whether `text` is a text of the counts, in some order.
    pub open spec fn has_text(self, text: Seq<char>) -> bool {
        exists|entries: Seq<(Seq<char>, (nat, nat))>| #[trigger]
            lists(entries, self@) && text == counts_text(entries)
    }

    /// A text of the counts, in no particular order.
    pub fn to_text(&self) -> (r: String)
        ensures
            self.has_text(r@),
    {
        let list: Vec<(String, (usize, usize))> = count_entries(self);
        let ghost s = entry_list(list@);
        let mut out: String = "{".to_owned();
        let mut i: usize = 0;
        assert(s.take(0) =~= Seq::<(Seq<char>, (nat, nat))>::empty());
        assert(out@ =~= "{"@ + joined_entries(s.take(0)));
        while i < list.len()
            invariant
                i <= list.len(),
                s == entry_list(list@),
                out@ == "{"@ + joined_entries(s.take(i as int)),
            decreases list.len() - i,
        {
            if i > 0 {
                out.append(", ");
            }
            out.append(quote(list[i].0.as_str()).as_str());
            out.append(": (");
            push_decimal(&mut out, list[i].1.0 as u128);
            out.append(", ");
            push_decimal(&mut out, list[i].1.1 as u128);
            out.append(")");
            proof {
                assert(s.take(i + 1).drop_last() =~= s.take(i as int));
                assert(s.take(i + 1).last() == s[i as int]);
                assert(out@ =~= "{"@ + joined_entries(s.take(i + 1)));
            }
            i = i + 1;
        }
        assert(s.take(i as int) =~= s);
        out.append("}");
        assert(lists(s, self@) && out@ == counts_text(s));
        out
    }
}

/// Counting keeps room for all but one of the occurrences there was room for.
pub proof fn lemma_counted_room(
    m: Map<Seq<char>, (nat, nat)>,
    kind: Seq<char>,
    problem: bool,
    n: nat,
)
    requires
        has_room(m, n + 1),
        n + 1 <= usize::MAX,
    ensures
        has_room(counted(m, kind, problem), n),
{
}

/// No kind has a problem more often than it occurs.
pub open spec fn sound(m: Map<Seq<char>, (nat, nat)>) -> bool {
    forall|kind: Seq<char>| #[trigger] m.contains_key(kind) ==> m[kind].0 <= m[kind].1
}

/// The counts with one more occurrence of each of several kinds.
pub open spec fn counted_all(
    m: Map<Seq<char>, (nat, nat)>,
    kinds: Seq<Seq<char>>,
    problem: bool,
) -> Map<Seq<char>, (nat, nat)>
    decreases kinds.len(),
{
    if kinds.len() == 0 {
        m
    } else {
        counted(counted_all(m, kinds.drop_last(), problem), kinds.last(), problem)
    }
}

/// What counting different kinds makes of the counts of one kind.
proof fn lemma_counted_all_at(
    m: Map<Seq<char>, (nat, nat)>,
    kinds: Seq<Seq<char>>,
    problem: bool,
    x: Seq<char>,
)
    requires
        kinds.no_duplicates(),
    ensures
        kinds.contains(x) ==> {
            &&& counted_all(m, kinds, problem).contains_key(x)
            &&& counted_all(m, kinds, problem)[x] == counted(m, x, problem)[x]
        },
        !kinds.contains(x) ==> {
            &&& counted_all(m, kinds, problem).contains_key(x) == m.contains_key(x)
            &&& m.contains_key(x) ==> counted_all(m, kinds, problem)[x] == m[x]
        },
    decreases kinds.len(),
{
    if kinds.len() > 0 {
        let before = kinds.drop_last();
        lemma_counted_all_at(m, before, problem, x);
        if before.contains(x) {
            let i = choose|i: int| 0 <= i < before.len() && before[i] == x;
            assert(kinds[i] == x);
            assert(x != kinds.last());
        } else if kinds.contains(x) {
            let i = choose|i: int| 0 <= i < kinds.len() && kinds[i] == x;
            if i < before.len() {
                assert(before[i] == x);
            }
            assert(x == kinds.last());
        } else {
            assert(kinds[kinds.len() - 1] == kinds.last());
        }
    }
}

/// Counting different kinds counts each of them once, and no other.
pub proof fn lemma_counted_all(
    m: Map<Seq<char>, (nat, nat)>,
    kinds: Seq<Seq<char>>,
    problem: bool,
)
    requires
        kinds.no_duplicates(),
    ensures
        forall|x: Seq<char>|
            kinds.contains(x) ==> {
                &&& #[trigger] counted_all(m, kinds, problem).contains_key(x)
                &&& counted_all(m, kinds, problem)[x] == counted(m, x, problem)[x]
            },
        forall|x: Seq<char>|
            !kinds.contains(x) ==> {
                &&& #[trigger] counted_all(m, kinds, problem).contains_key(x) == m.contains_key(x)
                &&& m.contains_key(x) ==> counted_all(m, kinds, problem)[x] == m[x]
            },
{
    assert forall|x: Seq<char>| kinds.contains(x) implies {
        &&& #[trigger] counted_all(m, kinds, problem).contains_key(x)
        &&& counted_all(m, kinds, problem)[x] == counted(m, x, problem)[x]
    } by {
        lemma_counted_all_at(m, kinds, problem, x);
    }
    assert forall|x: Seq<char>| !kinds.contains(x) implies {
        &&& #[trigger] counted_all(m, kinds, problem).contains_key(x) == m.contains_key(x)
        &&& m.contains_key(x) ==> counted_all(m, kinds, problem)[x] == m[x]
    } by {
        lemma_counted_all_at(m, kinds, problem, x);
    }
}

/// Counting different kinds keeps room for all but one of the occurrences there was room for.
pub proof fn lemma_counted_all_room(
    m: Map<Seq<char>, (nat, nat)>,
    kinds: Seq<Seq<char>>,
    problem: bool,
    n: nat,
)
    requires
        kinds.no_duplicates(),
        has_room(m, n + 1),
        n + 1 <= usize::MAX,
    ensures
        has_room(counted_all(m, kinds, problem), n),
{
    lemma_counted_all(m, kinds, problem);
    let r = counted_all(m, kinds, problem);
    assert forall|x: Seq<char>| #[trigger] r.contains_key(x) implies r[x].0 + n <= usize::MAX
        && r[x].1 + n <= usize::MAX by {
        if kinds.contains(x) {
            assert(r[x] == counted(m, x, problem)[x]);
        } else {
            assert(m.contains_key(x));
        }
    }
}

/// Counting keeps it so that no kind has a problem more often than it occurs.
pub proof fn lemma_counted_sound(m: Map<Seq<char>, (nat, nat)>, kind: Seq<char>, problem: bool)
    requires
        sound(m),
    ensures
        sound(counted(m, kind, problem)),
{
}

/// Counting several kinds keeps it so that no kind has a problem more often than it occurs.
pub proof fn lemma_counted_all_sound(
    m: Map<Seq<char>, (nat, nat)>,
    kinds: Seq<Seq<char>>,
    problem: bool,
)
    requires
        sound(m),
    ensures
        sound(counted_all(m, kinds, problem)),
    decreases kinds.len(),
{
    if kinds.len() > 0 {
        lemma_counted_all_sound(m, kinds.drop_last(), problem);
        lemma_counted_sound(
            counted_all(m, kinds.drop_last(), problem),
            kinds.last(),
            problem,
        );
    }
}

/// Counting an occurrence of a kind adds one to its occurrences, and one to its problems exactly if
/// it has one. Nothing else changes.
pub proof fn lemma_counted(
    m: Map<Seq<char>, (nat, nat)>,
    kind: Seq<char>,
    problem: bool,
    other: Seq<char>,
)
    ensures
        counted(m, kind, problem).dom() == m.dom().insert(kind),
        ({
            let before = if m.contains_key(kind) {
                m[kind]
            } else {
                (0nat, 0nat)
            };
            let after = counted(m, kind, problem)[kind];
            &&& after.1 == before.1 + 1
            &&& problem ==> after.0 == before.0 + 1
            &&& !problem ==> after.0 == before.0
        }),
        other != kind && m.contains_key(other) ==> counted(m, kind, problem)[other] == m[other],
{
    assert(counted(m, kind, problem).dom() =~= m.dom().insert(kind));
}

/// The text of counts has each of the entries, in their order, with a comma and a blank in front of
/// all but the first.
pub proof fn lemma_counts_text(entries: Seq<(Seq<char>, (nat, nat))>)
    ensures
        counts_text(entries) == "{"@ + Seq::new(
            entries.len(),
            |i: int|
                if i == 0 {
                    entry_text(entries[i])
                } else {
                    ", "@ + entry_text(entries[i])
                },
        ).flatten() + "}"@,
{
    lemma_joined_entries(entries);
}

proof fn lemma_joined_entries(entries: Seq<(Seq<char>, (nat, nat))>)
    ensures
        joined_entries(entries) == Seq::new(
            entries.len(),
            |i: int|
                if i == 0 {
                    entry_text(entries[i])
                } else {
                    ", "@ + entry_text(entries[i])
                },
        ).flatten(),
    decreases entries.len(),
{
    let all = Seq::new(
        entries.len(),
        |i: int|
            if i == 0 {
                entry_text(entries[i])
            } else {
                ", "@ + entry_text(entries[i])
            },
    );
    all.lemma_flatten_and_flatten_alt_are_equivalent();
    if entries.len() > 0 {
        let rest = entries.drop_last();
        lemma_joined_entries(rest);
        let before = Seq::new(
            rest.len(),
            |i: int|
                if i == 0 {
                    entry_text(rest[i])
                } else {
                    ", "@ + entry_text(rest[i])
                },
        );
        before.lemma_flatten_and_flatten_alt_are_equivalent();
        assert(all.drop_last() =~= before);
        if entries.len() == 1 {
            assert(before.flatten_alt() =~= Seq::<char>::empty());
            assert(all.flatten_alt() =~= entry_text(entries[0]));
        } else {
            assert(all.flatten_alt() =~= joined_entries(entries));
        }
    } else {
        assert(all.flatten_alt() =~= Seq::<char>::empty());
    }
}

} // verus!

//! The CDS feature table: locus tags mapped to locations, kept in ascending
//! lexicographic order of the tags, one entry per tag.
use vstd::prelude::*;
use vstd::string::*;

verus! {

/// Where one CDS lies: `start` is 0-based inclusive, `end` exclusive,
/// `strand` is 1 or -1, `codon_start` is the 1-based reading frame.
#[derive(Clone, Copy, Debug, PartialEq, Eq, Structural)]
pub struct Location {
    pub start: u32,
    pub end: u32,
    pub strand: i32,
    pub codon_start: u8,
}

/// Lexicographic order of character strings (by code point, which is also
/// the order of their UTF-8 bytes).
pub open spec fn text_lt(a: Seq<char>, b: Seq<char>) -> bool
    decreases a.len(),
{
    if a.len() == 0 {
        b.len() > 0
    } else if b.len() == 0 {
        false
    } else if a[0] != b[0] {
        a[0] < b[0]
    } else {
        text_lt(a.drop_first(), b.drop_first())
    }
}

pub proof fn lemma_text_lt_irreflexive(a: Seq<char>)
    ensures
        !text_lt(a, a),
    decreases a.len(),
{
    if a.len() > 0 {
        lemma_text_lt_irreflexive(a.drop_first());
    }
}

pub proof fn lemma_text_lt_total(a: Seq<char>, b: Seq<char>)
    ensures
        a == b || text_lt(a, b) || text_lt(b, a),
    decreases a.len(),
{
    if a.len() > 0 && b.len() > 0 && a[0] == b[0] {
        lemma_text_lt_total(a.drop_first(), b.drop_first());
        if a.drop_first() == b.drop_first() {
            assert(a =~= seq![a[0]] + a.drop_first());
            assert(b =~= seq![b[0]] + b.drop_first());
        }
    } else if a.len() == 0 && b.len() == 0 {
        assert(a =~= b);
    }
}

pub proof fn lemma_text_lt_transitive(a: Seq<char>, b: Seq<char>, c: Seq<char>)
    requires
        text_lt(a, b),
        text_lt(b, c),
    ensures
        text_lt(a, c),
    decreases a.len(),
{
    if a.len() > 0 && a[0] == b[0] && b[0] == c[0] {
        lemma_text_lt_transitive(a.drop_first(), b.drop_first(), c.drop_first());
    }
}

/// Whether `a` sorts strictly before `b`.
pub fn text_less(a: &str, b: &str) -> (r: bool)
    ensures
        r == text_lt(a@, b@),
{
    let n = a.unicode_len();
    let m = b.unicode_len();
    let mut i: usize = 0;
    assert(a@.skip(0) =~= a@);
    assert(b@.skip(0) =~= b@);
    while i < n && i < m && a.get_char(i) == b.get_char(i)
        invariant
            n == a@.len(),
            m == b@.len(),
            i <= n,
            i <= m,
            text_lt(a@.skip(i as int), b@.skip(i as int)) == text_lt(a@, b@),
        decreases n - i,
    {
        assert(a@.skip(i as int).drop_first() =~= a@.skip(i + 1));
        assert(b@.skip(i as int).drop_first() =~= b@.skip(i + 1));
        i = i + 1;
    }
    if i == n {
        i < m
    } else if i == m {
        false
    } else {
        a.get_char(i) < b.get_char(i)
    }
}

/// An ordered map from locus tag to location.
#[derive(Clone, Debug)]
pub struct FeatureTable {
    entries: Vec<(String, Location)>,
}

impl FeatureTable {
    /// The tags, in the order the table holds them.
    pub closed spec fn keys(&self) -> Seq<Seq<char>> {
        self.entries@.map_values(|e: (String, Location)| e.0@)
    }

    /// The locations, in the same order as the tags.
    pub closed spec fn locations(&self) -> Seq<Location> {
        self.entries@.map_values(|e: (String, Location)| e.1)
    }

    /// The tags ascend strictly.
    pub open spec fn wf(&self) -> bool {
        forall|i: int, j: int|
            0 <= i < j < self.keys().len() ==> text_lt(#[trigger] self.keys()[i], #[trigger] self.keys()[j])
    }

    /// The table holds `loc` under tag `k`.
    pub open spec fn has_entry(&self, k: Seq<char>, loc: Location) -> bool {
        exists|i: int| 0 <= i < self.keys().len() && #[trigger] self.keys()[i] == k && self.locations()[i] == loc
    }

    /// The table holds some location under tag `k`.
    pub open spec fn has_tag(&self, k: Seq<char>) -> bool {
        exists|i: int| 0 <= i < self.keys().len() && #[trigger] self.keys()[i] == k
    }

    /// `next` is this table with `loc` stored under `k`: a location that `k`
    /// had is replaced, every other tag keeps its location, no other tag comes in.
    pub open spec fn inserts(&self, next: &FeatureTable, k: Seq<char>, loc: Location) -> bool {
        &&& next.wf()
        &&& next.has_entry(k, loc)
        &&& forall|l: Location| #[trigger] next.has_entry(k, l) ==> l == loc
        &&& forall|k2: Seq<char>, l: Location| k2 != k ==> (#[trigger] next.has_entry(k2, l) <==> self.has_entry(k2, l))
    }

    /// An empty table.
    pub fn new() -> (r: FeatureTable)
        ensures
            r.wf(),
            r.keys().len() == 0,
            forall|k: Seq<char>| !r.has_tag(k),
    {
        FeatureTable { entries: Vec::new() }
    }

    /// The number of entries.
    pub fn len(&self) -> (r: usize)
        ensures
            r == self.keys().len(),
    {
        self.entries.len()
    }

    /// The tag and location of entry `i`.
    pub fn entry(&self, i: usize) -> (r: (&String, Location))
        requires
            i < self.keys().len(),
        ensures
            r.0@ == self.keys()[i as int],
            r.1 == self.locations()[i as int],
    {
        (&self.entries[i].0, self.entries[i].1)
    }

    /// Stores `loc` under `tag`, replacing what the tag held before.
    pub fn insert(&mut self, tag: String, loc: Location)
        requires
            old(self).wf(),
        ensures
            old(self).inserts(final(self), tag@, loc),
            final(self).keys().len() == old(self).keys().len() + (if old(self).has_tag(tag@) { 0int } else { 1int }),
    {
        let n = self.entries.len();
        let mut p: usize = 0;
        while p < n && text_less(self.entries[p].0.as_str(), tag.as_str())
            invariant
                n == self.entries@.len(),
                p <= n,
                forall|i: int| 0 <= i < p ==> text_lt(#[trigger] self.keys()[i], tag@),
            decreases n - p,
        {
            p = p + 1;
        }
        let ghost old_t = *self;
        assert(old_t.keys() == self.keys());
        if p < n && self.entries[p].0 == tag {
            proof {
                assert forall|i: int| 0 <= i < self.keys().len() && i != p implies self.keys()[i] != tag@ by {
                    assert(self.keys()[p as int] == tag@);
                    lemma_text_lt_irreflexive(tag@);
                    if i < p {
                        assert(text_lt(self.keys()[i], tag@));
                    } else {
                        assert(text_lt(self.keys()[p as int], self.keys()[i]));
                    }
                }
            }
            self.entries.set(p, (tag, loc));
            proof {
                let ks = self.keys();
                assert(ks =~= old_t.keys());
                assert(ks[p as int] == tag@);
                assert(self.has_entry(tag@, loc));
                assert(old_t.has_tag(tag@));
                assert forall|k2: Seq<char>, l: Location| k2 != tag@ implies
                    (#[trigger] self.has_entry(k2, l) <==> old_t.has_entry(k2, l)) by {
                    if self.has_entry(k2, l) {
                        let i = choose|i: int| 0 <= i < ks.len() && #[trigger] ks[i] == k2 && self.locations()[i] == l;
                        assert(old_t.keys()[i] == k2 && old_t.locations()[i] == l);
                    }
                    if old_t.has_entry(k2, l) {
                        let i = choose|i: int| 0 <= i < old_t.keys().len() && #[trigger] old_t.keys()[i] == k2 && old_t.locations()[i] == l;
                        assert(ks[i] == k2 && self.locations()[i] == l);
                    }
                }
                assert forall|l: Location| #[trigger] self.has_entry(tag@, l) implies l == loc by {
                    let i = choose|i: int| 0 <= i < ks.len() && #[trigger] ks[i] == tag@ && self.locations()[i] == l;
                    if i != p {
                        assert(old_t.keys()[i] == tag@);
                    }
                }
            }
        } else {
            proof {
                if p < n {
                    lemma_text_lt_total(self.keys()[p as int], tag@);
                }
            }
            self.entries.insert(p, (tag, loc));
            proof {
                let ks = self.keys();
                let oks = old_t.keys();
                assert(ks =~= oks.insert(p as int, tag@));
                assert(self.locations() =~= old_t.locations().insert(p as int, loc));
                assert forall|i: int, j: int| 0 <= i < j < ks.len() implies text_lt(#[trigger] ks[i], #[trigger] ks[j]) by {
                    if j < p {
                    } else if j == p {
                    } else if i < p {
                        assert(ks[j] == oks[j - 1]);
                        if j - 1 > p {
                            lemma_text_lt_transitive(tag@, oks[p as int], oks[j - 1]);
                        }
                        lemma_text_lt_transitive(ks[i], tag@, ks[j]);
                    } else if i == p {
                        if j - 1 > p {
                            lemma_text_lt_transitive(tag@, oks[p as int], oks[j - 1]);
                        }
                    } else {
                        assert(ks[i] == oks[i - 1]);
                        assert(ks[j] == oks[j - 1]);
                    }
                }
                assert forall|i: int| 0 <= i < oks.len() implies oks[i] != tag@ by {
                    lemma_text_lt_irreflexive(tag@);
                    if i > p {
                        lemma_text_lt_transitive(tag@, oks[p as int], oks[i]);
                    }
                }
                assert(!old_t.has_tag(tag@));
                assert(ks[p as int] == tag@);
                assert(self.has_entry(tag@, loc));
                assert forall|k2: Seq<char>, l: Location| k2 != tag@ implies
                    (#[trigger] self.has_entry(k2, l) <==> old_t.has_entry(k2, l)) by {
                    if self.has_entry(k2, l) {
                        let i = choose|i: int| 0 <= i < ks.len() && #[trigger] ks[i] == k2 && self.locations()[i] == l;
                        if i < p {
                            assert(oks[i] == k2 && old_t.locations()[i] == l);
                        } else {
                            assert(oks[i - 1] == k2 && old_t.locations()[i - 1] == l);
                        }
                    }
                    if old_t.has_entry(k2, l) {
                        let i = choose|i: int| 0 <= i < oks.len() && #[trigger] oks[i] == k2 && old_t.locations()[i] == l;
                        if i < p {
                            assert(ks[i] == k2 && self.locations()[i] == l);
                        } else {
                            assert(ks[i + 1] == k2 && self.locations()[i + 1] == l);
                        }
                    }
                }
                assert forall|l: Location| #[trigger] self.has_entry(tag@, l) implies l == loc by {
                    let i = choose|i: int| 0 <= i < ks.len() && #[trigger] ks[i] == tag@ && self.locations()[i] == l;
                    if i < p {
                        assert(oks[i] == tag@);
                    } else if i > p {
                        assert(oks[i - 1] == tag@);
                    }
                }
            }
        }
    }
}

/// Storing two locations under one tag leaves the later one: the earlier is
/// gone and the tag is not doubled.
pub proof fn lemma_later_insert_wins(
    t0: &FeatureTable,
    t1: &FeatureTable,
    t2: &FeatureTable,
    k: Seq<char>,
    a: Location,
    b: Location,
)
    requires
        t0.inserts(t1, k, a),
        t1.inserts(t2, k, b),
    ensures
        t2.has_entry(k, b),
        forall|l: Location| #[trigger] t2.has_entry(k, l) ==> l == b,
        forall|k2: Seq<char>, l: Location| k2 != k ==> (#[trigger] t2.has_entry(k2, l) <==> t0.has_entry(k2, l)),
{
}

} // verus!

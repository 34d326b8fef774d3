//! Log records: a set of named fields, each with an opaque byte payload.

use vstd::prelude::*;

verus! {

/// Strict lexicographic order on byte strings.
pub open spec fn bytes_lt(a: Seq<u8>, b: Seq<u8>) -> bool
    decreases a.len(),
{
    if a.len() == 0 {
        b.len() > 0
    } else if b.len() == 0 {
        false
    } else if a[0] != b[0] {
        a[0] < b[0]
    } else {
        bytes_lt(a.drop_first(), b.drop_first())
    }
}

pub proof fn lemma_bytes_lt_irreflexive(a: Seq<u8>)
    ensures
        !bytes_lt(a, a),
    decreases a.len(),
{
    if a.len() > 0 {
        lemma_bytes_lt_irreflexive(a.drop_first());
    }
}

pub proof fn lemma_bytes_lt_asymmetric(a: Seq<u8>, b: Seq<u8>)
    requires
        bytes_lt(a, b),
    ensures
        !bytes_lt(b, a),
    decreases a.len(),
{
    if a.len() > 0 && b.len() > 0 && a[0] == b[0] {
        lemma_bytes_lt_asymmetric(a.drop_first(), b.drop_first());
    }
}

pub proof fn lemma_bytes_lt_transitive(a: Seq<u8>, b: Seq<u8>, c: Seq<u8>)
    requires
        bytes_lt(a, b),
        bytes_lt(b, c),
    ensures
        bytes_lt(a, c),
    decreases a.len(),
{
    if a.len() > 0 && b.len() > 0 && c.len() > 0 && a[0] == b[0] && b[0] == c[0] {
        lemma_bytes_lt_transitive(a.drop_first(), b.drop_first(), c.drop_first());
    }
}

pub proof fn lemma_bytes_lt_total(a: Seq<u8>, b: Seq<u8>)
    requires
        a != b,
    ensures
        bytes_lt(a, b) || bytes_lt(b, a),
    decreases a.len(),
{
    if a.len() == 0 || b.len() == 0 {
        if a.len() == 0 && b.len() == 0 {
            assert(a =~= b);
        }
    } else if a[0] == b[0] {
        if a.drop_first() =~= b.drop_first() {
            assert forall|k: int| 0 <= k < a.len() implies a[k] == b[k] by {
                if k > 0 {
                    assert(a[k] == a.drop_first()[k - 1]);
                    assert(b[k] == b.drop_first()[k - 1]);
                }
            }
            assert(a =~= b);
        } else {
            lemma_bytes_lt_total(a.drop_first(), b.drop_first());
        }
    }
}

/// Decides `bytes_lt` on two byte vectors.
pub fn bytes_less(a: &Vec<u8>, b: &Vec<u8>) -> (r: bool)
    ensures
        r == bytes_lt(a@, b@),
{
    let mut i: usize = 0;
    assert(a@.skip(0) =~= a@);
    assert(b@.skip(0) =~= b@);
    while i < a.len() && i < b.len()
        invariant
            i <= a.len(),
            i <= b.len(),
            bytes_lt(a@, b@) == bytes_lt(a@.skip(i as int), b@.skip(i as int)),
        decreases a.len() - i,
    {
        if a[i] != b[i] {
            return a[i] < b[i];
        }
        assert(a@.skip(i as int).drop_first() == a@.skip(i + 1));
        assert(b@.skip(i as int).drop_first() == b@.skip(i + 1));
        i = i + 1;
    }
    i < b.len()
}


/// One named field of a log record; the value is kept as raw bytes.
pub struct Field {
    pub name: Vec<u8>,
    pub value: Vec<u8>,
}

impl Field {
    pub open spec fn pair(&self) -> (Seq<u8>, Seq<u8>) {
        (self.name@, self.value@)
    }
}

/// Field names strictly ascending in `bytes_lt`, hence pairwise distinct.
pub open spec fn names_sorted(s: Seq<(Seq<u8>, Seq<u8>)>) -> bool {
    forall|i: int, j: int| 0 <= i < j < s.len() ==> bytes_lt(#[trigger] s[i].0, #[trigger] s[j].0)
}

pub open spec fn names_distinct(s: Seq<(Seq<u8>, Seq<u8>)>) -> bool {
    forall|i: int, j: int| 0 <= i < s.len() && 0 <= j < s.len() && i != j ==> #[trigger] s[i].0 != #[trigger] s[j].0
}

/// The map from field name to value that a sequence of pairs describes.
pub open spec fn pairs_map(s: Seq<(Seq<u8>, Seq<u8>)>) -> Map<Seq<u8>, Seq<u8>>
    decreases s.len(),
{
    if s.len() == 0 {
        Map::empty()
    } else {
        pairs_map(s.drop_first()).insert(s[0].0, s[0].1)
    }
}

pub proof fn lemma_sorted_distinct(s: Seq<(Seq<u8>, Seq<u8>)>)
    requires
        names_sorted(s),
    ensures
        names_distinct(s),
{
    assert forall|i: int, j: int| 0 <= i < s.len() && 0 <= j < s.len() && i != j implies #[trigger] s[i].0 != #[trigger] s[j].0 by {
        if i < j {
            assert(bytes_lt(s[i].0, s[j].0));
            lemma_bytes_lt_irreflexive(s[i].0);
        } else {
            assert(bytes_lt(s[j].0, s[i].0));
            lemma_bytes_lt_irreflexive(s[j].0);
        }
    }
}

/// What `pairs_map` holds, entry by entry, when the names are distinct.
pub proof fn lemma_pairs_map_entries(s: Seq<(Seq<u8>, Seq<u8>)>)
    requires
        names_distinct(s),
    ensures
        forall|i: int| 0 <= i < s.len() ==> #[trigger] pairs_map(s).contains_key(s[i].0) && pairs_map(s)[s[i].0] == s[i].1,
        forall|k: Seq<u8>| #[trigger] pairs_map(s).contains_key(k) ==> exists|i: int| 0 <= i < s.len() && s[i].0 == k,
    decreases s.len(),
{
    if s.len() > 0 {
        let t = s.drop_first();
        assert(names_distinct(t)) by {
            assert forall|i: int, j: int| 0 <= i < t.len() && 0 <= j < t.len() && i != j implies #[trigger] t[i].0 != #[trigger] t[j].0 by {
                assert(s[i + 1].0 != s[j + 1].0);
            }
        }
        lemma_pairs_map_entries(t);
        assert(pairs_map(s) == pairs_map(t).insert(s[0].0, s[0].1));
        assert forall|i: int| 0 <= i < s.len() implies #[trigger] pairs_map(s).contains_key(s[i].0) && pairs_map(s)[s[i].0] == s[i].1 by {
            if i > 0 {
                assert(s[i] == t[i - 1]);
                assert(pairs_map(t).contains_key(t[i - 1].0));
                assert(s[i].0 != s[0].0);
            }
        }
        assert forall|k: Seq<u8>| #[trigger] pairs_map(s).contains_key(k) implies exists|i: int| 0 <= i < s.len() && s[i].0 == k by {
            if k != s[0].0 {
                assert(pairs_map(t).contains_key(k));
                let j = choose|j: int| 0 <= j < t.len() && t[j].0 == k;
                assert(s[j + 1].0 == k);
            }
        }
    }
}

/// With distinct names, the map has one key per pair.
pub proof fn lemma_pairs_map_len(s: Seq<(Seq<u8>, Seq<u8>)>)
    requires
        names_distinct(s),
    ensures
        pairs_map(s).dom().finite(),
        pairs_map(s).dom().len() == s.len(),
    decreases s.len(),
{
    if s.len() > 0 {
        let t = s.drop_first();
        assert(names_distinct(t)) by {
            assert forall|i: int, j: int| 0 <= i < t.len() && 0 <= j < t.len() && i != j implies #[trigger] t[i].0 != #[trigger] t[j].0 by {
                assert(s[i + 1].0 != s[j + 1].0);
            }
        }
        lemma_pairs_map_len(t);
        lemma_pairs_map_entries(t);
        assert(!pairs_map(t).contains_key(s[0].0)) by {
            if pairs_map(t).contains_key(s[0].0) {
                let i = choose|i: int| 0 <= i < t.len() && t[i].0 == s[0].0;
                assert(s[i + 1].0 != s[0].0);
            }
        }
        assert(pairs_map(s).dom() =~= pairs_map(t).dom().insert(s[0].0));
    } else {
        assert(pairs_map(s).dom() =~= Set::<Seq<u8>>::empty());
    }
}

/// `pairs_map(s)` is the one map that holds exactly the pairs of `s`.
pub proof fn lemma_pairs_map_is(s: Seq<(Seq<u8>, Seq<u8>)>, m: Map<Seq<u8>, Seq<u8>>)
    requires
        names_distinct(s),
        forall|i: int| 0 <= i < s.len() ==> #[trigger] m.contains_key(s[i].0) && m[s[i].0] == s[i].1,
        forall|k: Seq<u8>| #[trigger] m.contains_key(k) ==> exists|i: int| 0 <= i < s.len() && s[i].0 == k,
    ensures
        pairs_map(s) == m,
{
    lemma_pairs_map_entries(s);
    let pm = pairs_map(s);
    assert forall|k: Seq<u8>| pm.contains_key(k) <==> m.contains_key(k) by {
        if pm.contains_key(k) {
            let i = choose|i: int| 0 <= i < s.len() && s[i].0 == k;
            assert(m.contains_key(s[i].0));
        }
        if m.contains_key(k) {
            let i = choose|i: int| 0 <= i < s.len() && s[i].0 == k;
            assert(pm.contains_key(s[i].0));
        }
    }
    assert forall|k: Seq<u8>| #[trigger] pm.contains_key(k) implies pm[k] == m[k] by {
        let i = choose|i: int| 0 <= i < s.len() && s[i].0 == k;
        assert(pm.contains_key(s[i].0));
        assert(m.contains_key(s[i].0));
    }
    assert(pm =~= m);
}

/// Two name-sorted sequences that describe the same map are the same sequence.
pub proof fn lemma_sorted_pairs_unique(s1: Seq<(Seq<u8>, Seq<u8>)>, s2: Seq<(Seq<u8>, Seq<u8>)>)
    requires
        names_sorted(s1),
        names_sorted(s2),
        pairs_map(s1) == pairs_map(s2),
    ensures
        s1 == s2,
    decreases s1.len(),
{
    lemma_sorted_distinct(s1);
    lemma_sorted_distinct(s2);
    lemma_pairs_map_entries(s1);
    lemma_pairs_map_entries(s2);
    if s1.len() == 0 || s2.len() == 0 {
        if s1.len() > 0 {
            assert(pairs_map(s1).contains_key(s1[0].0));
        }
        if s2.len() > 0 {
            assert(pairs_map(s2).contains_key(s2[0].0));
        }
        assert(s1 =~= s2);
    } else {
        let a = s1[0].0;
        let b = s2[0].0;
        assert(pairs_map(s1).contains_key(a));
        assert(pairs_map(s2).contains_key(b));
        if a != b {
            let j = choose|j: int| 0 <= j < s2.len() && s2[j].0 == a;
            let i = choose|i: int| 0 <= i < s1.len() && s1[i].0 == b;
            assert(bytes_lt(s2[0].0, s2[j].0));
            assert(bytes_lt(s1[0].0, s1[i].0));
            lemma_bytes_lt_asymmetric(a, b);
        }
        let t1 = s1.drop_first();
        let t2 = s2.drop_first();
        assert(names_sorted(t1)) by {
            assert forall|i: int, j: int| 0 <= i < j < t1.len() implies bytes_lt(#[trigger] t1[i].0, #[trigger] t1[j].0) by {
                assert(s1[i + 1].0 == t1[i].0 && s1[j + 1].0 == t1[j].0);
            }
        }
        assert(names_sorted(t2)) by {
            assert forall|i: int, j: int| 0 <= i < j < t2.len() implies bytes_lt(#[trigger] t2[i].0, #[trigger] t2[j].0) by {
                assert(s2[i + 1].0 == t2[i].0 && s2[j + 1].0 == t2[j].0);
            }
        }
        lemma_sorted_distinct(t1);
        lemma_sorted_distinct(t2);
        lemma_pairs_map_entries(t1);
        lemma_pairs_map_entries(t2);
        assert(!pairs_map(t1).contains_key(a)) by {
            if pairs_map(t1).contains_key(a) {
                let i = choose|i: int| 0 <= i < t1.len() && t1[i].0 == a;
                assert(s1[i + 1].0 != s1[0].0);
            }
        }
        assert(!pairs_map(t2).contains_key(a)) by {
            if pairs_map(t2).contains_key(a) {
                let i = choose|i: int| 0 <= i < t2.len() && t2[i].0 == a;
                assert(s2[i + 1].0 != s2[0].0);
            }
        }
        assert(pairs_map(t1) =~= pairs_map(s1).remove(a));
        assert(pairs_map(t2) =~= pairs_map(s2).remove(a));
        lemma_sorted_pairs_unique(t1, t2);
        assert(s1[0].1 == pairs_map(s1)[a]);
        assert(s2[0].1 == pairs_map(s2)[a]);
        assert forall|k: int| 0 <= k < s1.len() implies s1[k] == s2[k] by {
            if k > 0 {
                assert(s1[k] == t1[k - 1]);
                assert(s2[k] == t2[k - 1]);
            }
        }
        assert(s1 =~= s2);
    }
}

/// The map that assigning the pairs of `s` one after another gives; a later
/// pair replaces an earlier one with the same name.
pub open spec fn assigned(s: Seq<(Seq<u8>, Seq<u8>)>) -> Map<Seq<u8>, Seq<u8>>
    decreases s.len(),
{
    if s.len() == 0 {
        Map::empty()
    } else {
        assigned(s.drop_last()).insert(s.last().0, s.last().1)
    }
}

/// A copy of `v`.
pub fn copy_bytes(v: &Vec<u8>) -> (r: Vec<u8>)
    ensures
        r@ == v@,
{
    let mut r: Vec<u8> = Vec::with_capacity(v.len());
    let mut i: usize = 0;
    while i < v.len()
        invariant
            i <= v.len(),
            r@ == v@.take(i as int),
        decreases v.len() - i,
    {
        r.push(v[i]);
        i = i + 1;
        assert(r@ =~= v@.take(i as int));
    }
    assert(v@.take(i as int) =~= v@);
    r
}

/// A log record: field names are unique and kept in ascending byte order,
/// so that equal contents are always laid out the same way.
pub struct LogRecord {
    fields: Vec<Field>,
}

impl View for LogRecord {
    type V = Map<Seq<u8>, Seq<u8>>;

    open spec fn view(&self) -> Map<Seq<u8>, Seq<u8>> {
        pairs_map(self.entries())
    }
}

impl LogRecord {
    /// The fields as (name, value) pairs, in ascending name order.
    pub closed spec fn entries(&self) -> Seq<(Seq<u8>, Seq<u8>)> {
        self.fields@.map_values(|f: Field| f.pair())
    }

    pub open spec fn wf(&self) -> bool {
        names_sorted(self.entries())
    }

    /// The fields, in ascending name order.
    pub fn fields(&self) -> (r: &Vec<Field>)
        ensures
            r@.map_values(|f: Field| f.pair()) == self.entries(),
    {
        &self.fields
    }

    /// Number of fields.
    pub fn len(&self) -> (r: usize)
        ensures
            r == self.entries().len(),
    {
        self.fields.len()
    }

    /// The pairs of `entries` are exactly the fields of the record's map,
    /// each name once.
    pub proof fn lemma_entries_are_fields(&self)
        requires
            self.wf(),
        ensures
            names_distinct(self.entries()),
            self@.dom().finite(),
            self@.dom().len() == self.entries().len(),
            forall|i: int| 0 <= i < self.entries().len() ==> #[trigger] self@.contains_key(self.entries()[i].0) && self@[self.entries()[i].0] == self.entries()[i].1,
            forall|k: Seq<u8>| #[trigger] self@.contains_key(k) ==> exists|i: int| 0 <= i < self.entries().len() && self.entries()[i].0 == k,
    {
        lemma_sorted_distinct(self.entries());
        lemma_pairs_map_entries(self.entries());
        lemma_pairs_map_len(self.entries());
    }

    /// Records with the same fields and values are laid out identically.
    pub proof fn lemma_same_content_same_entries(&self, other: &LogRecord)
        requires
            self.wf(),
            other.wf(),
            self@ == other@,
        ensures
            self.entries() == other.entries(),
    {
        lemma_sorted_pairs_unique(self.entries(), other.entries());
    }

    /// The record that the given fields make, taken in order; of two fields
    /// with the same name the later one counts.
    pub fn from_fields(fields: &Vec<Field>) -> (r: LogRecord)
        ensures
            r.wf(),
            r@ == assigned(fields@.map_values(|f: Field| f.pair())),
    {
        let ghost s = fields@.map_values(|f: Field| f.pair());
        let mut r = LogRecord::new();
        let mut i: usize = 0;
        while i < fields.len()
            invariant
                i <= fields.len(),
                s == fields@.map_values(|f: Field| f.pair()),
                r.wf(),
                r@ == assigned(s.take(i as int)),
            decreases fields.len() - i,
        {
            assert(s.take(i + 1).drop_last() =~= s.take(i as int));
            assert(s[i as int] == fields@[i as int].pair());
            r.insert(copy_bytes(&fields[i].name), copy_bytes(&fields[i].value));
            i = i + 1;
        }
        assert(s.take(i as int) =~= s);
        r
    }

    /// Names and values are byte vectors, so their lengths fit in 64 bits.
    pub proof fn lemma_entries_fit(&self)
        ensures
            forall|i: int| 0 <= i < self.entries().len() ==> (#[trigger] self.entries()[i]).0.len() <= u64::MAX && self.entries()[i].1.len() <= u64::MAX,
    {
        assert forall|i: int| 0 <= i < self.entries().len() implies (#[trigger] self.entries()[i]).0.len() <= u64::MAX && self.entries()[i].1.len() <= u64::MAX by {
            let f = self.fields@[i];
            assert(self.entries()[i] == f.pair());
            assert(f.name@.len() == f.name.len());
            assert(f.value@.len() == f.value.len());
        }
    }

    /// A record without fields.
    pub fn new() -> (r: LogRecord)
        ensures
            r.wf(),
            r.entries().len() == 0,
            r@ == Map::<Seq<u8>, Seq<u8>>::empty(),
    {
        let r = LogRecord { fields: Vec::new() };
        assert(r.entries() =~= Seq::<(Seq<u8>, Seq<u8>)>::empty());
        r
    }

    /// Sets the field `name` to `value`; an earlier value of that field is replaced.
    pub fn insert(&mut self, name: Vec<u8>, value: Vec<u8>)
        requires
            old(self).wf(),
        ensures
            final(self).wf(),
            final(self)@ == old(self)@.insert(name@, value@),
    {
        let ghost s = self.entries();
        let mut p: usize = 0;
        while p < self.fields.len()
            invariant
                p <= self.fields.len(),
                s == self.entries(),
                forall|j: int| 0 <= j < p ==> bytes_lt(#[trigger] s[j].0, name@),
            ensures
                p <= self.fields.len(),
                forall|j: int| 0 <= j < p ==> bytes_lt(#[trigger] s[j].0, name@),
                p < self.fields.len() ==> !bytes_lt(s[p as int].0, name@),
            decreases self.fields.len() - p,
        {
            if !bytes_less(&self.fields[p].name, &name) {
                break;
            }
            p = p + 1;
        }
        let ghost e = (name@, value@);
        proof {
            lemma_sorted_distinct(s);
            lemma_pairs_map_entries(s);
        }
        if p < self.fields.len() && !bytes_less(&name, &self.fields[p].name) {
            proof {
                if s[p as int].0 != name@ {
                    lemma_bytes_lt_total(s[p as int].0, name@);
                }
            }
            assert(s[p as int].0 == name@);
            self.fields.set(p, Field { name, value });
            let ghost t = self.entries();
            assert(t =~= s.update(p as int, e));
            assert forall|i: int, j: int| 0 <= i < j < t.len() implies bytes_lt(#[trigger] t[i].0, #[trigger] t[j].0) by {
                assert(t[i].0 == s[i].0);
                assert(t[j].0 == s[j].0);
            }
            proof {
                lemma_sorted_distinct(t);
                let m = pairs_map(s).insert(e.0, e.1);
                assert forall|k: Seq<u8>| #[trigger] m.contains_key(k) implies exists|i: int| 0 <= i < t.len() && t[i].0 == k by {
                    if k != e.0 {
                        let i = choose|i: int| 0 <= i < s.len() && s[i].0 == k;
                        assert(t[i].0 == k);
                    } else {
                        assert(t[p as int].0 == k);
                    }
                }
                assert forall|i: int| 0 <= i < t.len() implies #[trigger] m.contains_key(t[i].0) && m[t[i].0] == t[i].1 by {
                    if i != p {
                        assert(s[i].0 != s[p as int].0);
                    }
                }
                lemma_pairs_map_is(t, m);
            }
        } else {
            self.fields.insert(p, Field { name, value });
            let ghost t = self.entries();
            assert(t =~= s.insert(p as int, e));
            assert forall|i: int, j: int| 0 <= i < j < t.len() implies bytes_lt(#[trigger] t[i].0, #[trigger] t[j].0) by {
                if i < p && j == p {
                } else if i == p && j > p {
                    if j - 1 > p {
                        lemma_bytes_lt_transitive(name@, s[p as int].0, s[j - 1].0);
                    }
                } else if i < p && j > p {
                    assert(s[i].0 == t[i].0);
                    assert(s[j - 1].0 == t[j].0);
                } else if i > p {
                    assert(s[i - 1].0 == t[i].0);
                    assert(s[j - 1].0 == t[j].0);
                }
            }
            proof {
                lemma_sorted_distinct(t);
                let m = pairs_map(s).insert(e.0, e.1);
                assert forall|k: Seq<u8>| #[trigger] m.contains_key(k) implies exists|i: int| 0 <= i < t.len() && t[i].0 == k by {
                    if k != e.0 {
                        let i = choose|i: int| 0 <= i < s.len() && s[i].0 == k;
                        if i < p {
                            assert(t[i].0 == k);
                        } else {
                            assert(t[i + 1].0 == k);
                        }
                    } else {
                        assert(t[p as int].0 == k);
                    }
                }
                assert forall|i: int| 0 <= i < t.len() implies #[trigger] m.contains_key(t[i].0) && m[t[i].0] == t[i].1 by {
                    if i < p {
                        assert(t[i] == s[i]);
                        assert(t[i].0 != t[p as int].0);
                        assert(pairs_map(s).contains_key(s[i].0));
                    } else if i > p {
                        assert(t[i] == s[i - 1]);
                        assert(t[i].0 != t[p as int].0);
                        assert(pairs_map(s).contains_key(s[i - 1].0));
                    }
                }
                lemma_pairs_map_is(t, m);
            }
        }
    }
}

} // verus!

//! String interning: every distinct piece of text is stored once, in an
//! explicit table, and is referred to by a cheaply comparable handle.
//!
//! The table is an explicit value with a defined construction point, handed to
//! the interning operations by the caller; this keeps every use isolated (a
//! fresh table per test) and lets the contracts speak about the table's
//! contents directly.

use vstd::prelude::*;

verus! {

/// Content `c` already has a canonical entry in table `t`.
pub open spec fn table_has(t: Seq<Seq<char>>, c: Seq<char>) -> bool {
    exists|i: int| 0 <= i < t.len() && t[i] == c
}

/// The position of a canonical entry for `c` in `t` (meaningful when
/// `table_has(t, c)`; unique when the table is duplicate-free).
pub open spec fn table_index(t: Seq<Seq<char>>, c: Seq<char>) -> int {
    choose|i: int| 0 <= i < t.len() && t[i] == c
}

/// The handle that interning `c` into table `t` yields: the existing entry on
/// a hit, the next free position on a miss.
pub open spec fn spec_intern_index(t: Seq<Seq<char>>, c: Seq<char>) -> int {
    if table_has(t, c) {
        table_index(t, c)
    } else {
        t.len() as int
    }
}

/// The table after interning `c` into `t`: unchanged on a hit, extended by the
/// new canonical entry on a miss.
pub open spec fn spec_intern_table(t: Seq<Seq<char>>, c: Seq<char>) -> Seq<Seq<char>> {
    if table_has(t, c) {
        t
    } else {
        t.push(c)
    }
}

/// No two entries of the table hold the same content.
pub open spec fn distinct_table(t: Seq<Seq<char>>) -> bool {
    forall|i: int, j: int| 0 <= i < j < t.len() ==> t[i] != t[j]
}

/// The process-wide store mapping content to handles. Entries are append-only
/// and pairwise distinct; entry 0 is always the empty string, backing the
/// default handle.
pub struct Interner {
    table: Vec<String>,
}

impl View for Interner {
    type V = Seq<Seq<char>>;

    closed spec fn view(&self) -> Seq<Seq<char>> {
        self.table@.map_values(|s: String| s@)
    }
}

/// An interned string: a handle to one canonical entry of an [`Interner`].
/// Two handles from the same table are equal exactly when their contents are
/// byte-identical. The derived order follows the table's creation order, not
/// the contents' lexicographic order.
#[derive(Debug, Clone, Copy, PartialEq, Eq, Hash, PartialOrd, Ord, Structural)]
pub struct InternString {
    idx: usize,
}

impl InternString {
    /// The position of this handle's canonical entry in the interning table.
    pub closed spec fn id(self) -> int {
        self.idx as int
    }

    /// The handle refers to an entry that table `t` actually holds.
    pub open spec fn valid(self, t: Seq<Seq<char>>) -> bool {
        0 <= self.id() < t.len()
    }

    /// The canonical content this handle refers to, under table `t`.
    pub open spec fn content(self, t: Seq<Seq<char>>) -> Seq<char> {
        t[self.id()]
    }

    /// The handle that interning `c` into table `t` yields.
    pub closed spec fn spec_of(t: Seq<Seq<char>>, c: Seq<char>) -> InternString {
        InternString { idx: spec_intern_index(t, c) as usize }
    }
}

/// In a duplicate-free table an entry equal to `c` is the only one, so any
/// position holding `c` is the interning result for `c`.
proof fn lemma_distinct_index(t: Seq<Seq<char>>, c: Seq<char>, i: int)
    requires
        distinct_table(t),
        0 <= i < t.len(),
        t[i] == c,
    ensures
        table_has(t, c),
        table_index(t, c) == i,
        spec_intern_index(t, c) == i,
{
    assert(table_has(t, c));
    let j = table_index(t, c);
    assert(0 <= j < t.len() && t[j] == c);
    if j < i {
        assert(t[j] != t[i]);
    } else if i < j {
        assert(t[i] != t[j]);
    }
}

/// Compares `part` against the characters of `s` starting at offset `off`.
fn str_range_eq(s: &str, off: usize, part: &str) -> (r: bool)
    requires
        off + part@.len() <= s@.len(),
    ensures
        r == (s@.subrange(off as int, off as int + part@.len()) == part@),
{
    let slen = s.unicode_len();
    let plen = part.unicode_len();
    let mut i: usize = 0;
    while i < plen
        invariant
            slen == s@.len(),
            plen == part@.len(),
            off + plen <= slen,
            i <= plen,
            forall|j: int| 0 <= j < i ==> s@[off + j] == part@[j],
        decreases plen - i,
    {
        if s.get_char(off + i) != part.get_char(i) {
            proof {
                assert(s@.subrange(off as int, off as int + part@.len())[i as int] == s@[off + i]);
            }
            return false;
        }
        i = i + 1;
    }
    proof {
        assert(s@.subrange(off as int, off as int + part@.len()) =~= part@);
    }
    true
}

/// Full content equality of two string slices.
fn str_eq(a: &str, b: &str) -> (r: bool)
    ensures
        r == (a@ == b@),
{
    let alen = a.unicode_len();
    let blen = b.unicode_len();
    if alen != blen {
        return false;
    }
    let r = str_range_eq(a, 0, b);
    proof {
        assert(a@.subrange(0, a@.len() as int) =~= a@);
    }
    r
}

/// A three-part concatenation splits back into its parts.
proof fn lemma_concat3_subranges(a: Seq<char>, b: Seq<char>, c: Seq<char>)
    ensures
        (a + b + c).len() == a.len() + b.len() + c.len(),
        (a + b + c).subrange(0, a.len() as int) == a,
        (a + b + c).subrange(a.len() as int, (a.len() + b.len()) as int) == b,
        (a + b + c).subrange((a.len() + b.len()) as int, (a.len() + b.len() + c.len()) as int) == c,
{
    assert((a + b + c).subrange(0, a.len() as int) =~= a);
    assert((a + b + c).subrange(a.len() as int, (a.len() + b.len()) as int) =~= b);
    assert((a + b + c).subrange((a.len() + b.len()) as int, (a.len() + b.len() + c.len()) as int)
        =~= c);
}

/// The equivalence test between a stored entry and a three-part candidate
/// key: the entry matches exactly when it equals the parts' concatenation.
/// Works by a length check and three per-segment comparisons, so a hit never
/// builds the concatenated string.
fn triple_matches(s: &str, a: &str, b: &str, c: &str) -> (r: bool)
    ensures
        r == (s@ == a@ + b@ + c@),
{
    let slen = s.unicode_len();
    let alen = a.unicode_len();
    let blen = b.unicode_len();
    let clen = c.unicode_len();
    proof {
        lemma_concat3_subranges(a@, b@, c@);
    }
    if alen > slen || blen > slen - alen || clen != slen - alen - blen {
        return false;
    }
    if !str_range_eq(s, 0, a) {
        proof {
            if s@ == a@ + b@ + c@ {
                assert(s@.subrange(0, alen as int) == a@);
            }
        }
        return false;
    }
    if !str_range_eq(s, alen, b) {
        proof {
            if s@ == a@ + b@ + c@ {
                assert(s@.subrange(alen as int, alen + blen) == b@);
            }
        }
        return false;
    }
    if !str_range_eq(s, alen + blen, c) {
        proof {
            if s@ == a@ + b@ + c@ {
                assert(s@.subrange(alen + blen, alen + blen + clen) == c@);
            }
        }
        return false;
    }
    proof {
        assert forall|i: int| 0 <= i < slen implies s@[i] == (a@ + b@ + c@)[i] by {
            if i < alen {
                assert(s@.subrange(0, alen as int)[i] == s@[i]);
            } else if i < alen + blen {
                assert(s@.subrange(alen as int, alen + blen)[i - alen] == s@[i]);
            } else {
                assert(s@.subrange(alen + blen, alen + blen + clen)[i - alen - blen] == s@[i]);
            }
        }
        assert(s@ =~= a@ + b@ + c@);
    }
    true
}

impl Interner {
    /// Well-formed: entries are pairwise distinct, and entry 0 is the empty
    /// string (the content of the default handle). Holds of every `Interner`
    /// at all times.
    #[verifier::type_invariant]
    pub open spec fn wf(self) -> bool {
        &&& distinct_table(self@)
        &&& self@.len() >= 1
        &&& self@[0] == Seq::<char>::empty()
    }

    /// A fresh table, holding only the empty string.
    pub fn new() -> (r: Interner)
        ensures
            r.wf(),
            r@ == seq![Seq::<char>::empty()],
    {
        let mut table: Vec<String> = Vec::new();
        table.push(String::new());
        proof {
            assert((Interner { table })@ =~= seq![Seq::<char>::empty()]);
        }
        Interner { table }
    }

    /// Scans the table for an entry holding exactly `x`'s content.
    fn lookup(&self, x: &str) -> (r: Option<usize>)
        ensures
            match r {
                Some(i) => i < self@.len() && self@[i as int] == x@,
                None => !table_has(self@, x@),
            },
    {
        let n = self.table.len();
        let mut i: usize = 0;
        while i < n
            invariant
                n == self@.len(),
                i <= n,
                forall|j: int| 0 <= j < i ==> self@[j] != x@,
            decreases n - i,
        {
            if str_eq(self.table[i].as_str(), x) {
                return Some(i);
            }
            i = i + 1;
        }
        None
    }

    /// Interns `x`: returns the canonical handle for `x`'s content, extending
    /// the table exactly when the content is new.
    pub fn intern(&mut self, x: &str) -> (s: InternString)
        ensures
            final(self).wf(),
            final(self)@ == spec_intern_table(old(self)@, x@),
            s == InternString::spec_of(old(self)@, x@),
            s.id() == spec_intern_index(old(self)@, x@),
            s.valid(final(self)@),
            s.content(final(self)@) == x@,
    {
        proof {
            use_type_invariant(&*self);
        }
        match self.lookup(x) {
            Some(i) => {
                proof {
                    lemma_distinct_index(self@, x@, i as int);
                }
                InternString { idx: i }
            },
            None => {
                let i = self.table.len();
                let mut tmp = Interner::new();
                std::mem::swap(self, &mut tmp);
                let Interner { table: mut table } = tmp;
                table.push(x.to_owned());
                proof {
                    let t_new = (Interner { table })@;
                    assert(t_new =~= old(self)@.push(x@));
                    assert forall|p: int, q: int| 0 <= p < q < t_new.len() implies t_new[p]
                        != t_new[q] by {
                        if q == i as int {
                            assert(t_new[q] == x@);
                            assert(!table_has(old(self)@, x@));
                        }
                    }
                }
                *self = Interner { table };
                InternString { idx: i }
            },
        }
    }

    /// Scans the table for an entry equal to the concatenation of the three
    /// parts, without ever building that concatenation.
    fn lookup3(&self, x: &str, y: &str, z: &str) -> (r: Option<usize>)
        ensures
            match r {
                Some(i) => i < self@.len() && self@[i as int] == x@ + y@ + z@,
                None => !table_has(self@, x@ + y@ + z@),
            },
    {
        let n = self.table.len();
        let mut i: usize = 0;
        while i < n
            invariant
                n == self@.len(),
                i <= n,
                forall|j: int| 0 <= j < i ==> self@[j] != x@ + y@ + z@,
            decreases n - i,
        {
            if triple_matches(self.table[i].as_str(), x, y, z) {
                return Some(i);
            }
            i = i + 1;
        }
        None
    }

    /// Interns the concatenation of the three parts: semantically `intern` on
    /// `x + y + z`, but a lookup hit allocates nothing; only the insert path
    /// builds the concatenated string.
    pub fn intern3(&mut self, x: &str, y: &str, z: &str) -> (s: InternString)
        ensures
            final(self).wf(),
            final(self)@ == spec_intern_table(old(self)@, x@ + y@ + z@),
            s == InternString::spec_of(old(self)@, x@ + y@ + z@),
            s.id() == spec_intern_index(old(self)@, x@ + y@ + z@),
            s.valid(final(self)@),
            s.content(final(self)@) == x@ + y@ + z@,
    {
        proof {
            use_type_invariant(&*self);
        }
        match self.lookup3(x, y, z) {
            Some(i) => {
                proof {
                    lemma_distinct_index(self@, x@ + y@ + z@, i as int);
                }
                InternString { idx: i }
            },
            None => {
                let i = self.table.len();
                let mut joined = x.to_owned();
                joined.append(y);
                joined.append(z);
                let mut tmp = Interner::new();
                std::mem::swap(self, &mut tmp);
                let Interner { table: mut table } = tmp;
                table.push(joined);
                proof {
                    let t_new = (Interner { table })@;
                    assert(t_new =~= old(self)@.push(x@ + y@ + z@));
                    assert forall|p: int, q: int| 0 <= p < q < t_new.len() implies t_new[p]
                        != t_new[q] by {
                        if q == i as int {
                            assert(t_new[q] == x@ + y@ + z@);
                            assert(!table_has(old(self)@, x@ + y@ + z@));
                        }
                    }
                }
                *self = Interner { table };
                InternString { idx: i }
            },
        }
    }
}

impl InternString {
    /// Interns `x` in `interner`: the canonical handle for `x`'s content.
    pub fn new(interner: &mut Interner, x: &str) -> (s: InternString)
        ensures
            final(interner).wf(),
            final(interner)@ == spec_intern_table(old(interner)@, x@),
            s == InternString::spec_of(old(interner)@, x@),
            s.id() == spec_intern_index(old(interner)@, x@),
            s.valid(final(interner)@),
            s.content(final(interner)@) == x@,
    {
        interner.intern(x)
    }

    /// Equivalent to `new` on the three arguments concatenated, but a lookup
    /// hit never constructs the concatenated string.
    pub fn new3(interner: &mut Interner, x: &str, y: &str, z: &str) -> (s: InternString)
        ensures
            final(interner).wf(),
            final(interner)@ == spec_intern_table(old(interner)@, x@ + y@ + z@),
            s == InternString::spec_of(old(interner)@, x@ + y@ + z@),
            s.id() == spec_intern_index(old(interner)@, x@ + y@ + z@),
            s.valid(final(interner)@),
            s.content(final(interner)@) == x@ + y@ + z@,
    {
        interner.intern3(x, y, z)
    }

    /// Interns an owned string: the same handle `new` yields on its contents.
    pub fn from_string(interner: &mut Interner, x: String) -> (s: InternString)
        ensures
            final(interner).wf(),
            final(interner)@ == spec_intern_table(old(interner)@, x@),
            s == InternString::spec_of(old(interner)@, x@),
            s.id() == spec_intern_index(old(interner)@, x@),
            s.valid(final(interner)@),
            s.content(final(interner)@) == x@,
    {
        interner.intern(x.as_str())
    }

    /// Whether this handle points at an entry that `interner`'s table holds;
    /// true of every handle the table itself handed out.
    pub fn is_valid(&self, interner: &Interner) -> (r: bool)
        ensures
            r == self.valid(interner@),
    {
        self.idx < interner.table.len()
    }

    /// The canonical stored text of this handle, borrowed from the table.
    pub fn as_str<'a>(&self, interner: &'a Interner) -> (r: &'a str)
        requires
            self.valid(interner@),
        ensures
            r@ == self.content(interner@),
    {
        interner.table[self.idx].as_str()
    }
}

impl Default for InternString {
    /// The default handle: position 0, which every well-formed table maps to
    /// the empty string, so it equals `new` on empty content.
    fn default() -> (r: Self)
        ensures
            r.id() == 0,
    {
        InternString { idx: 0 }
    }
}

/// A handle is nothing but its table position: two handles are equal exactly
/// when their positions are.
pub proof fn lemma_handle_id_injective(a: InternString, b: InternString)
    ensures
        (a.id() == b.id()) <==> (a == b),
{
}

/// Interning is idempotent: interning content a second time leaves the table
/// unchanged and yields the same handle, whatever shape of call produced the
/// first entry.
pub proof fn lemma_intern_idempotent(t: Seq<Seq<char>>, c: Seq<char>)
    ensures
        spec_intern_table(spec_intern_table(t, c), c) == spec_intern_table(t, c),
        spec_intern_index(spec_intern_table(t, c), c) == spec_intern_index(t, c),
{
    if !table_has(t, c) {
        let t1 = t.push(c);
        assert(t1[t.len() as int] == c);
        assert(table_has(t1, c));
        let j = table_index(t1, c);
        assert(0 <= j < t1.len() && t1[j] == c);
        if j < t.len() {
            assert(t[j] == c);
        }
        assert(j == t.len());
    }
}

/// The interning result is a handle to the requested content, within the
/// bounds of the resulting table.
pub proof fn lemma_intern_result(t: Seq<Seq<char>>, c: Seq<char>)
    ensures
        0 <= spec_intern_index(t, c) < spec_intern_table(t, c).len(),
        spec_intern_table(t, c)[spec_intern_index(t, c)] == c,
        t.len() <= spec_intern_table(t, c).len(),
{
    if table_has(t, c) {
        let j = table_index(t, c);
        assert(0 <= j < t.len() && t[j] == c);
    }
}

/// Distinct contents receive distinct handles: interning `c2` after `c1`
/// yields a different handle whenever the contents differ.
pub proof fn lemma_intern_distinct(t: Seq<Seq<char>>, c1: Seq<char>, c2: Seq<char>)
    requires
        c1 != c2,
    ensures
        spec_intern_index(spec_intern_table(t, c1), c2) != spec_intern_index(t, c1),
{
    let i1 = spec_intern_index(t, c1);
    let t1 = spec_intern_table(t, c1);
    lemma_intern_result(t, c1);
    if table_has(t1, c2) {
        let i2 = table_index(t1, c2);
        assert(0 <= i2 < t1.len() && t1[i2] == c2);
        assert(t1[i1] == c1);
    }
}

/// Within a duplicate-free table, handles and contents determine each other:
/// two positions are equal exactly when the contents they hold are equal.
pub proof fn lemma_handle_eq_iff_content_eq(t: Seq<Seq<char>>, i: int, j: int)
    requires
        distinct_table(t),
        0 <= i < t.len(),
        0 <= j < t.len(),
    ensures
        (i == j) <==> (t[i] == t[j]),
{
    if i < j {
        assert(t[i] != t[j]);
    } else if j < i {
        assert(t[j] != t[i]);
    }
}

} // verus!

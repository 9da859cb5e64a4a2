//! Deduplicating string storage.
//!
//! Interning a string returns a stable, cheaply comparable
//! [`InternedString`] handle; equal text always receives the same handle,
//! and the original text can be recovered by a reverse lookup. Entries are
//! never evicted: a handle stays valid for as long as the [`Interner`] that
//! produced it lives.

use vstd::prelude::*;

verus! {

/// A handle produced by interning a string. Equality on handles coincides
/// with equality of the interned text (for handles from one interner).
#[derive(Debug, Copy, Clone, PartialEq, Eq, Structural)]
pub struct InternedString {
    value: usize,
}

impl InternedString {
    /// The position of the interned text inside the interner's table.
    pub closed spec fn id(self) -> int {
        self.value as int
    }
}

/// The handle whose table position is `i`.
pub closed spec fn sym(i: int) -> InternedString {
    InternedString { value: i as usize }
}

/// Handles are exactly their table position: `sym` and `id` invert each
/// other for positions that fit in `usize`.
pub broadcast proof fn lemma_sym_id(i: int)
    ensures
        0 <= i <= usize::MAX ==> (#[trigger] sym(i)).id() == i,
{
}

/// A handle is nothing but its table position: equal positions mean
/// equal handles.
pub proof fn lemma_id_injective(s1: InternedString, s2: InternedString)
    requires
        s1.id() == s2.id(),
    ensures
        s1 == s2,
{
}

/// The first position of `text` in `strs`, or `strs.len()` if `text` does
/// not occur.
pub open spec fn intern_index(strs: Seq<Seq<char>>, text: Seq<char>) -> int
    decreases strs.len(),
{
    if strs.len() == 0 {
        0
    } else if strs[0] == text {
        0
    } else {
        1 + intern_index(strs.drop_first(), text)
    }
}

/// Whether `text` occurs in `strs`.
pub open spec fn contains_text(strs: Seq<Seq<char>>, text: Seq<char>) -> bool {
    intern_index(strs, text) < strs.len()
}

/// The table after interning `text`: unchanged if present, else extended.
pub open spec fn intern_insert(strs: Seq<Seq<char>>, text: Seq<char>) -> Seq<Seq<char>> {
    if contains_text(strs, text) {
        strs
    } else {
        strs.push(text)
    }
}

/// `intern_index` is in range and points at `text` exactly when some
/// position holds `text`.
pub proof fn lemma_intern_index(strs: Seq<Seq<char>>, text: Seq<char>)
    ensures
        0 <= intern_index(strs, text) <= strs.len(),
        intern_index(strs, text) < strs.len() ==> strs[intern_index(strs, text)] == text,
        forall|j: int| 0 <= j < intern_index(strs, text) ==> strs[j] != text,
        (exists|j: int| 0 <= j < strs.len() && strs[j] == text) ==> intern_index(strs, text)
            < strs.len(),
    decreases strs.len(),
{
    if strs.len() > 0 && strs[0] != text {
        lemma_intern_index(strs.drop_first(), text);
        assert forall|j: int| 0 <= j < intern_index(strs, text) implies strs[j] != text by {
            if j > 0 {
                assert(strs.drop_first()[j - 1] == strs[j]);
            }
        }
        if exists|j: int| 0 <= j < strs.len() && strs[j] == text {
            let j = choose|j: int| 0 <= j < strs.len() && strs[j] == text;
            assert(strs.drop_first()[j - 1] == text);
        }
    }
}

/// The first occurrence of `text` determines `intern_index`: any position
/// that holds `text` and is preceded by no other occurrence is the index.
pub proof fn lemma_intern_index_is_first(strs: Seq<Seq<char>>, text: Seq<char>, k: int)
    requires
        0 <= k < strs.len(),
        strs[k] == text,
        forall|j: int| 0 <= j < k ==> strs[j] != text,
    ensures
        intern_index(strs, text) == k,
{
    lemma_intern_index(strs, text);
    let ii = intern_index(strs, text);
    if ii < k {
        assert(strs[ii] == text);
        assert(false);
    }
    if ii > k {
        assert(strs[k] != text);
        assert(false);
    }
}

/// Law: interning the same text twice returns the same handle, and the
/// second call leaves the table unchanged.
pub proof fn lemma_intern_deterministic(strs: Seq<Seq<char>>, s: Seq<char>)
    ensures
        intern_index(intern_insert(strs, s), s) == intern_index(strs, s),
        intern_insert(intern_insert(strs, s), s) == intern_insert(strs, s),
{
    lemma_intern_index(strs, s);
    let ii = intern_index(strs, s);
    if contains_text(strs, s) {
    } else {
        let strs1 = strs.push(s);
        assert(strs1[ii] == s);
        assert forall|j: int| 0 <= j < ii implies strs1[j] != s by {
            assert(strs1[j] == strs[j]);
        }
        lemma_intern_index_is_first(strs1, s, ii);
    }
}

/// Law: interning distinct texts returns distinct handles, whatever the
/// order of the two calls.
pub proof fn lemma_intern_distinct(strs: Seq<Seq<char>>, s: Seq<char>, t: Seq<char>)
    requires
        s != t,
        strs.len() + 1 <= usize::MAX,
    ensures
        sym(intern_index(strs, s)) != sym(intern_index(intern_insert(strs, s), t)),
{
    lemma_intern_index(strs, s);
    lemma_intern_index(intern_insert(strs, s), t);
    let strs1 = intern_insert(strs, s);
    let i1 = intern_index(strs, s);
    let i2 = intern_index(strs1, t);
    let strs2 = intern_insert(strs1, t);
    assert(strs1[i1] == s);
    assert(strs2[i1] == s);
    if i2 < strs1.len() {
        assert(strs1[i2] == t);
    } else {
        assert(strs2[i2] == t);
    }
    assert(i1 != i2);
    lemma_sym_id(i1);
    lemma_sym_id(i2);
}

/// Law: resolving a freshly interned handle gives the original text back.
pub proof fn lemma_intern_resolve(strs: Seq<Seq<char>>, s: Seq<char>)
    ensures
        intern_insert(strs, s)[intern_index(strs, s)] == s,
{
    lemma_intern_index(strs, s);
}

/// All texts of a table are pairwise distinct, so every text has one
/// handle.
pub open spec fn distinct_texts(strs: Seq<Seq<char>>) -> bool {
    forall|i: int, j: int| 0 <= i < j < strs.len() ==> strs[i] != strs[j]
}

/// Interning preserves distinctness: a text is only stored when no equal
/// text is present.
pub proof fn lemma_intern_insert_distinct(strs: Seq<Seq<char>>, t: Seq<char>)
    requires
        distinct_texts(strs),
    ensures
        distinct_texts(intern_insert(strs, t)),
{
    lemma_intern_index(strs, t);
    if !contains_text(strs, t) {
        let strs2 = strs.push(t);
        assert forall|i: int, j: int| 0 <= i < j < strs2.len() implies strs2[i] != strs2[j] by {
            if j == strs2.len() - 1 {
                assert(strs2[i] == strs[i]);
            }
        }
    }
}

/// Interns strings, turning text into [`InternedString`] handles and back
/// the other way around.
pub struct Interner {
    strings: Vec<String>,
}

impl View for Interner {
    type V = Seq<Seq<char>>;

    closed spec fn view(&self) -> Seq<Seq<char>> {
        self.strings@.map(|i: int, s: String| s@)
    }
}

impl Interner {
    /// All stored strings are distinct, so every text has one handle.
    pub open spec fn wf(self) -> bool {
        distinct_texts(self@)
    }

    /// Create an empty interner.
    pub fn new() -> (r: Interner)
        ensures
            r@ == Seq::<Seq<char>>::empty(),
            r.wf(),
    {
        let r = Interner { strings: Vec::new() };
        proof {
            assert(r@ =~= Seq::<Seq<char>>::empty());
        }
        r
    }

    /// Intern `text`: return the handle of the position already holding
    /// equal text, or store `text` at a fresh position and return that.
    pub fn intern(&mut self, text: &str) -> (r: InternedString)
        requires
            old(self).wf(),
        ensures
            final(self).wf(),
            final(self)@ == intern_insert(old(self)@, text@),
            r == sym(intern_index(old(self)@, text@)),
            r.id() == intern_index(old(self)@, text@),
            final(self)@[r.id()] == text@,
            contains_text(old(self)@, text@) ==> final(self)@ == old(self)@,
            !contains_text(old(self)@, text@) ==> final(self)@ == old(self)@.push(text@)
                && r.id() == old(self)@.len(),
    {
        proof {
            lemma_intern_index(old(self)@, text@);
        }
        let text_string: String = text.to_owned();
        let n = self.strings.len();
        let mut i: usize = 0;
        while i < n
            invariant
                n == self.strings.len(),
                0 <= i <= n,
                *self == *old(self),
                old(self).wf(),
                text_string@ == text@,
                forall|j: int| 0 <= j < i ==> self@[j] != text@,
            decreases n - i,
        {
            if self.strings[i] == text_string {
                proof {
                    assert(self@[i as int] == text@);
                    let ii = intern_index(old(self)@, text@);
                    lemma_intern_index(old(self)@, text@);
                    if ii < i {
                        assert(old(self)@[ii] == text@);
                        assert(false);
                    }
                    if ii > i as int {
                        assert(old(self)@[i as int] != text@);
                        assert(false);
                    }
                    assert(ii == i as int);
                    assert(contains_text(old(self)@, text@));
                }
                return InternedString { value: i };
            }
            i += 1;
        }
        let r = InternedString { value: n };
        self.strings.push(text_string);
        proof {
            assert(self@ =~= old(self)@.push(text@));
            assert(!contains_text(old(self)@, text@));
            assert forall|a: int, b: int| 0 <= a < b < self@.len() implies self@[a] != self@[b] by {
                if b == self@.len() - 1 {
                    assert(self@[a] == old(self)@[a]);
                }
            }
        }
        r
    }

    /// Whether this interner has produced the handle.
    pub fn knows(&self, s: InternedString) -> (r: bool)
        ensures
            r == (0 <= s.id() < self@.len()),
    {
        s.value < self.strings.len()
    }

    /// Look the original text of a handle up. Returns `None` exactly for
    /// handles this interner has not produced.
    pub fn get(&self, s: InternedString) -> (r: Option<String>)
        ensures
            r is Some <==> 0 <= s.id() < self@.len(),
            r is Some ==> r->Some_0@ == self@[s.id()],
    {
        if s.value < self.strings.len() {
            Some(self.strings[s.value].clone())
        } else {
            None
        }
    }
}

/// Intern `text` in `interner`, giving back an [`InternedString`].
pub fn intern(interner: &mut Interner, text: &str) -> (r: InternedString)
    requires
        old(interner).wf(),
    ensures
        final(interner).wf(),
        final(interner)@ == intern_insert(old(interner)@, text@),
        r == sym(intern_index(old(interner)@, text@)),
        final(interner)@[r.id()] == text@,
{
    interner.intern(text)
}

/// Get the original text back for an [`InternedString`].
pub fn intern_get_str(interner: &Interner, s: InternedString) -> (r: Option<String>)
    ensures
        r is Some <==> 0 <= s.id() < interner@.len(),
        r is Some ==> r->Some_0@ == interner@[s.id()],
{
    interner.get(s)
}

} // verus!

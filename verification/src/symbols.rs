//! Symbols and symbol-list normalization.
//!
//! A symbol names a specific tradable instrument, or is the wildcard that
//! stands for all instruments.  Lists of symbols carry a canonical-form
//! invariant: a list is normalized when it is empty, is exactly the single
//! wildcard, or contains no wildcard and is strictly increasing under the
//! symbol order (specific identifiers lexically, every identifier below the
//! wildcard).

use vstd::prelude::*;

verus! {

/// The mathematical value of a [`Symbol`]: the identifier text, or the
/// wildcard.
pub enum SymbolView {
    /// A specific instrument identifier.
    Symbol(Seq<char>),
    /// The wildcard standing for all instruments.
    All,
}

/// A symbol for which market data can be received.
#[derive(Clone, Debug, PartialEq)]
pub enum Symbol {
    /// A symbol for a specific instrument.
    Symbol(String),
    /// A "wildcard" symbol, representing all available instruments.
    All,
}

impl View for Symbol {
    type V = SymbolView;

    open spec fn view(&self) -> SymbolView {
        match self {
            Symbol::Symbol(s) => SymbolView::Symbol(s@),
            Symbol::All => SymbolView::All,
        }
    }
}

/// The views of a sequence of symbols, in order.
pub open spec fn views(s: Seq<Symbol>) -> Seq<SymbolView> {
    s.map_values(|x: Symbol| x@)
}

/// Lexical order on identifier text, read from position `i` on: the first
/// differing character decides, a strict prefix comes first.
pub open spec fn lex_lt_from(a: Seq<char>, b: Seq<char>, i: int) -> bool
    decreases a.len() - i,
{
    if i >= b.len() {
        false
    } else if i >= a.len() {
        true
    } else if a[i] != b[i] {
        (a[i] as u32) < (b[i] as u32)
    } else {
        lex_lt_from(a, b, i + 1)
    }
}

/// Strict lexical order on identifier text.
pub open spec fn lex_lt(a: Seq<char>, b: Seq<char>) -> bool {
    lex_lt_from(a, b, 0)
}

/// The symbol order: specific identifiers compare lexically, and every
/// specific identifier is strictly below the wildcard.
pub open spec fn sym_lt(a: SymbolView, b: SymbolView) -> bool {
    match (a, b) {
        (SymbolView::Symbol(x), SymbolView::Symbol(y)) => lex_lt(x, y),
        (SymbolView::Symbol(_), SymbolView::All) => true,
        (SymbolView::All, _) => false,
    }
}

/// Whether the wildcard occurs in `s`.
pub open spec fn contains_all(s: Seq<SymbolView>) -> bool {
    s.contains(SymbolView::All)
}

/// Whether `s` is strictly increasing under the symbol order.
pub open spec fn sorted(s: Seq<SymbolView>) -> bool {
    forall|i: int, j: int| 0 <= i < j < s.len() ==> sym_lt(s[i], s[j])
}

/// The normalized-list invariant: the wildcard occurs only alone, and a
/// wildcard-free list is strictly increasing under the symbol order.
pub open spec fn is_normalized_spec(s: Seq<SymbolView>) -> bool {
    if contains_all(s) {
        s.len() == 1
    } else {
        sorted(s)
    }
}

/// Distinct characters cast to distinct code points.
proof fn lemma_char_neq(a: char, b: char)
    requires
        a != b,
    ensures
        (a as u32) != (b as u32),
{
    if (a as u32) == (b as u32) {
        vstd::utf8::char_u32_cast(a, a as u32);
        vstd::utf8::char_u32_cast(b, b as u32);
    }
}

proof fn lemma_lex_from_trichotomy(a: Seq<char>, b: Seq<char>, i: int)
    requires
        0 <= i <= a.len(),
        0 <= i <= b.len(),
    ensures
        lex_lt_from(a, b, i) || lex_lt_from(b, a, i) || a.skip(i) =~= b.skip(i),
        lex_lt_from(a, b, i) ==> !lex_lt_from(b, a, i),
        lex_lt_from(a, b, i) ==> !(a.skip(i) =~= b.skip(i)),
    decreases a.len() - i,
{
    if i >= b.len() || i >= a.len() {
    } else if a[i] != b[i] {
        lemma_char_neq(a[i], b[i]);
        assert(a.skip(i)[0] == a[i] && b.skip(i)[0] == b[i]);
    } else {
        lemma_lex_from_trichotomy(a, b, i + 1);
        assert(a.skip(i)[0] == b.skip(i)[0]);
        if a.skip(i + 1) =~= b.skip(i + 1) {
            assert forall|k: int| 0 <= k < a.skip(i).len() implies a.skip(i)[k] == b.skip(i)[k] by {
                if k > 0 {
                    assert(a.skip(i)[k] == a.skip(i + 1)[k - 1]);
                    assert(b.skip(i)[k] == b.skip(i + 1)[k - 1]);
                }
            }
        }
        if a.skip(i) =~= b.skip(i) {
            assert forall|k: int| 0 <= k < a.skip(i + 1).len() implies #[trigger] a.skip(i + 1)[k]
                == b.skip(i + 1)[k] by {
                assert(a.skip(i + 1)[k] == a.skip(i)[k + 1]);
                assert(b.skip(i + 1)[k] == b.skip(i)[k + 1]);
            }
        }
    }
}

/// Lexical order is trichotomous: two texts are ordered one way, the other
/// way, or equal.
pub proof fn lemma_lex_trichotomy(a: Seq<char>, b: Seq<char>)
    ensures
        lex_lt(a, b) || lex_lt(b, a) || a =~= b,
        lex_lt(a, b) ==> !lex_lt(b, a),
        lex_lt(a, b) ==> !(a =~= b),
{
    lemma_lex_from_trichotomy(a, b, 0);
    assert(a.skip(0) =~= a);
    assert(b.skip(0) =~= b);
}

proof fn lemma_lex_from_trans(a: Seq<char>, b: Seq<char>, c: Seq<char>, i: int)
    requires
        0 <= i,
        lex_lt_from(a, b, i),
        lex_lt_from(b, c, i),
    ensures
        lex_lt_from(a, c, i),
    decreases b.len() - i,
{
    if i >= c.len() {
        assert(!lex_lt_from(b, c, i));
    } else if i >= b.len() {
        assert(!lex_lt_from(a, b, i));
    } else if i >= a.len() {
    } else if a[i] == b[i] && b[i] == c[i] {
        lemma_lex_from_trans(a, b, c, i + 1);
    } else {
        // At least one pair differs, so one of the two hypotheses is decided
        // by a character comparison at `i`.
        if a[i] != b[i] {
            if b[i] != c[i] {
                assert((a[i] as u32) < (c[i] as u32));
            } else {
                assert((a[i] as u32) < (c[i] as u32));
            }
        } else {
            assert((b[i] as u32) < (c[i] as u32));
        }
        if a[i] == c[i] {
            assert(false);
        }
    }
}

/// The symbol order is transitive.
pub proof fn lemma_sym_lt_trans(a: SymbolView, b: SymbolView, c: SymbolView)
    requires
        sym_lt(a, b),
        sym_lt(b, c),
    ensures
        sym_lt(a, c),
{
    match (a, b, c) {
        (SymbolView::Symbol(x), SymbolView::Symbol(y), SymbolView::Symbol(z)) => {
            lemma_lex_from_trans(x, y, z, 0);
        },
        _ => {},
    }
}

/// The symbol order is trichotomous over views of symbols.
pub proof fn lemma_sym_trichotomy(a: SymbolView, b: SymbolView)
    ensures
        sym_lt(a, b) || sym_lt(b, a) || a =~= b,
        sym_lt(a, b) ==> !sym_lt(b, a),
        sym_lt(a, b) ==> !(a =~= b),
{
    match (a, b) {
        (SymbolView::Symbol(x), SymbolView::Symbol(y)) => {
            lemma_lex_trichotomy(x, y);
        },
        _ => {},
    }
}

/// Insert `x` into the strictly increasing list `s`, keeping it strictly
/// increasing; an element already present is not repeated.
pub open spec fn insert_sym(x: SymbolView, s: Seq<SymbolView>) -> Seq<SymbolView>
    decreases s.len(),
{
    if s.len() == 0 {
        seq![x]
    } else if sym_lt(x, s[0]) {
        seq![x] + s
    } else if x == s[0] {
        s
    } else {
        seq![s[0]] + insert_sym(x, s.drop_first())
    }
}

/// Sort a list of symbol views into strictly increasing order, dropping
/// duplicates.
pub open spec fn sort_syms(s: Seq<SymbolView>) -> Seq<SymbolView>
    decreases s.len(),
{
    if s.len() == 0 {
        Seq::empty()
    } else {
        insert_sym(s[0], sort_syms(s.drop_first()))
    }
}

/// Canonical form of a symbol list: a list containing the wildcard collapses
/// to the single wildcard, any other list is sorted with duplicates removed.
pub open spec fn normalize_spec(s: Seq<SymbolView>) -> Seq<SymbolView> {
    if contains_all(s) {
        seq![SymbolView::All]
    } else {
        sort_syms(s)
    }
}

#[verifier::rlimit(50)]
proof fn lemma_insert_sym(x: SymbolView, s: Seq<SymbolView>)
    requires
        sorted(s),
    ensures
        sorted(insert_sym(x, s)),
        forall|v: SymbolView|
            #[trigger] insert_sym(x, s).contains(v) <==> (s.contains(v) || v == x),
    decreases s.len(),
{
    let out = insert_sym(x, s);
    if s.len() == 0 {
        assert(out =~= seq![x]);
        assert forall|v: SymbolView| out.contains(v) implies (s.contains(v) || v == x) by {
            let k = choose|k: int| 0 <= k < out.len() && out[k] == v;
            assert(out[0] == x);
        }
        assert(out[0] == x);
    } else if sym_lt(x, s[0]) {
        assert forall|i: int, j: int| 0 <= i < j < out.len() implies sym_lt(out[i], out[j]) by {
            if i == 0 {
                assert(out[j] == s[j - 1]);
                if j == 1 {
                } else {
                    lemma_sym_lt_trans(x, s[0], s[j - 1]);
                }
            } else {
                assert(out[i] == s[i - 1] && out[j] == s[j - 1]);
            }
        }
        assert forall|v: SymbolView| out.contains(v) implies (s.contains(v) || v == x) by {
            let k = choose|k: int| 0 <= k < out.len() && out[k] == v;
            if k > 0 {
                assert(s[k - 1] == v);
            }
        }
        assert forall|v: SymbolView| s.contains(v) || v == x implies out.contains(v) by {
            if s.contains(v) {
                let k = choose|k: int| 0 <= k < s.len() && s[k] == v;
                assert(out[k + 1] == v);
            } else {
                assert(out[0] == v);
            }
        }
    } else if x == s[0] {
        assert(s.contains(x)) by {
            assert(s[0] == x);
        }
    } else {
        lemma_sym_trichotomy(x, s[0]);
        assert(sym_lt(s[0], x));
        let tail = s.drop_first();
        assert(sorted(tail)) by {
            assert(forall|i: int, j: int|
                0 <= i < j < tail.len() ==> tail[i] == s[i + 1] && tail[j] == s[j + 1]);
        }
        lemma_insert_sym(x, tail);
        let ti = insert_sym(x, tail);
        assert(out =~= seq![s[0]] + ti);
        assert forall|i: int, j: int| 0 <= i < j < out.len() implies sym_lt(out[i], out[j]) by {
            if i == 0 {
                let v = out[j];
                assert(ti[j - 1] == v);
                assert(ti.contains(v));
                if v == x {
                } else {
                    assert(tail.contains(v));
                    let k = choose|k: int| 0 <= k < tail.len() && tail[k] == v;
                    assert(tail[k] == s[k + 1]);
                    assert(sym_lt(s[0], s[k + 1]));
                }
            } else {
                assert(out[i] == ti[i - 1] && out[j] == ti[j - 1]);
            }
        }
        assert forall|v: SymbolView| out.contains(v) implies (s.contains(v) || v == x) by {
            let k = choose|k: int| 0 <= k < out.len() && out[k] == v;
            if k == 0 {
                assert(s[0] == v);
            } else {
                assert(ti[k - 1] == v);
                assert(ti.contains(v));
                if v != x {
                    assert(tail.contains(v));
                    let m = choose|m: int| 0 <= m < tail.len() && tail[m] == v;
                    assert(s[m + 1] == v);
                }
            }
        }
        assert forall|v: SymbolView| s.contains(v) || v == x implies out.contains(v) by {
            if s.contains(v) {
                let k = choose|k: int| 0 <= k < s.len() && s[k] == v;
                if k == 0 {
                    assert(out[0] == v);
                } else {
                    assert(tail[k - 1] == v);
                    assert(tail.contains(v));
                    assert(ti.contains(v));
                    let m = choose|m: int| 0 <= m < ti.len() && ti[m] == v;
                    assert(out[m + 1] == v);
                }
            } else {
                assert(ti.contains(v));
                let m = choose|m: int| 0 <= m < ti.len() && ti[m] == v;
                assert(out[m + 1] == v);
            }
        }
    }
}

proof fn lemma_sort_syms(s: Seq<SymbolView>)
    ensures
        sorted(sort_syms(s)),
        forall|v: SymbolView| #[trigger] sort_syms(s).contains(v) <==> s.contains(v),
    decreases s.len(),
{
    if s.len() == 0 {
    } else {
        let tail = s.drop_first();
        lemma_sort_syms(tail);
        lemma_insert_sym(s[0], sort_syms(tail));
        assert forall|v: SymbolView| sort_syms(s).contains(v) implies s.contains(v) by {
            if v != s[0] {
                assert(tail.contains(v));
                let k = choose|k: int| 0 <= k < tail.len() && tail[k] == v;
                assert(s[k + 1] == v);
            } else {
                assert(s[0] == v);
            }
        }
        assert forall|v: SymbolView| s.contains(v) implies sort_syms(s).contains(v) by {
            let k = choose|k: int| 0 <= k < s.len() && s[k] == v;
            if k > 0 {
                assert(tail[k - 1] == v);
                assert(tail.contains(v));
                assert(sort_syms(tail).contains(v));
            }
            assert(sort_syms(s) == insert_sym(s[0], sort_syms(tail)));
            assert(insert_sym(s[0], sort_syms(tail)).contains(v));
        }
    }
}

/// The symbol order never relates a value to itself.
proof fn lemma_sym_irrefl(v: SymbolView)
    ensures
        !sym_lt(v, v),
{
    lemma_sym_trichotomy(v, v);
    assert(v =~= v);
}

/// Two strictly increasing lists with the same members are the same list.
proof fn lemma_sorted_unique(s: Seq<SymbolView>, t: Seq<SymbolView>)
    requires
        sorted(s),
        sorted(t),
        forall|v: SymbolView| s.contains(v) <==> t.contains(v),
    ensures
        s =~= t,
    decreases s.len(),
{
    if s.len() == 0 {
        if t.len() > 0 {
            assert(t.contains(t[0]));
        }
    } else {
        assert(s.contains(s[0]));
        assert(t.len() > 0);
        // The heads are equal: each head occurs in the other list, and a head
        // is below every later element.
        let j = choose|j: int| 0 <= j < t.len() && t[j] == s[0];
        let k = choose|k: int| 0 <= k < s.len() && s[k] == t[0];
        assert(t.contains(t[0]));
        assert(s.contains(s[0]));
        if s[0] != t[0] {
            assert(j > 0 && k > 0);
            assert(sym_lt(t[0], t[j]));
            assert(sym_lt(s[0], s[k]));
            lemma_sym_trichotomy(s[0], t[0]);
            assert(false);
        }
        let st = s.drop_first();
        let tt = t.drop_first();
        assert(sorted(st)) by {
            assert(forall|i: int, j2: int|
                0 <= i < j2 < st.len() ==> st[i] == s[i + 1] && st[j2] == s[j2 + 1]);
        }
        assert(sorted(tt)) by {
            assert(forall|i: int, j2: int|
                0 <= i < j2 < tt.len() ==> tt[i] == t[i + 1] && tt[j2] == t[j2 + 1]);
        }
        assert forall|v: SymbolView| st.contains(v) implies tt.contains(v) by {
            let m = choose|m: int| 0 <= m < st.len() && st[m] == v;
            assert(s[m + 1] == v);
            assert(sym_lt(s[0], v));
            lemma_sym_irrefl(v);
            assert(s.contains(v));
            let n = choose|n: int| 0 <= n < t.len() && t[n] == v;
            assert(n > 0);
            assert(tt[n - 1] == v);
        }
        assert forall|v: SymbolView| tt.contains(v) implies st.contains(v) by {
            let m = choose|m: int| 0 <= m < tt.len() && tt[m] == v;
            assert(t[m + 1] == v);
            assert(sym_lt(t[0], v));
            lemma_sym_irrefl(v);
            assert(t.contains(v));
            let n = choose|n: int| 0 <= n < s.len() && s[n] == v;
            assert(n > 0);
            assert(st[n - 1] == v);
        }
        lemma_sorted_unique(st, tt);
        assert forall|i: int| 0 <= i < s.len() implies s[i] == t[i] by {
            if i > 0 {
                assert(st[i - 1] == tt[i - 1]);
            }
        }
    }
}

/// Normalizing an already-normalized list leaves it as it is.
pub proof fn lemma_normalize_noop(s: Seq<SymbolView>)
    requires
        is_normalized_spec(s),
    ensures
        normalize_spec(s) == s,
{
    if contains_all(s) {
        let k = choose|k: int| 0 <= k < s.len() && s[k] == SymbolView::All;
        assert(normalize_spec(s) =~= s);
    } else {
        lemma_sort_of_sorted(s);
    }
}

proof fn lemma_sort_of_sorted(s: Seq<SymbolView>)
    requires
        sorted(s),
    ensures
        sort_syms(s) == s,
    decreases s.len(),
{
    if s.len() > 0 {
        let tail = s.drop_first();
        assert(sorted(tail)) by {
            assert(forall|i: int, j: int|
                0 <= i < j < tail.len() ==> tail[i] == s[i + 1] && tail[j] == s[j + 1]);
        }
        lemma_sort_of_sorted(tail);
        if tail.len() == 0 {
            assert(insert_sym(s[0], tail) =~= s);
        } else {
            assert(tail[0] == s[1]);
            assert(sym_lt(s[0], tail[0]));
            lemma_sym_irrefl(s[0]);
            assert(insert_sym(s[0], tail) =~= seq![s[0]] + tail);
            assert(seq![s[0]] + tail =~= s);
        }
    }
}

/// The result of normalization always satisfies the normalized-list
/// invariant.
pub proof fn lemma_normalize_normalizes(s: Seq<SymbolView>)
    ensures
        is_normalized_spec(normalize_spec(s)),
{
    if contains_all(s) {
        assert(normalize_spec(s)[0] == SymbolView::All);
        assert(normalize_spec(s).contains(SymbolView::All));
    } else {
        lemma_sort_syms(s);
        if contains_all(sort_syms(s)) {
            assert(s.contains(SymbolView::All));
        }
    }
}

/// Normalization keeps exactly the members of the input when no wildcard is
/// present.
pub proof fn lemma_normalize_members(s: Seq<SymbolView>)
    requires
        !contains_all(s),
    ensures
        forall|v: SymbolView| normalize_spec(s).contains(v) <==> s.contains(v),
{
    lemma_sort_syms(s);
}

/// Idempotence: normalizing twice gives the same list as normalizing once.
pub proof fn lemma_normalize_idempotent(s: Seq<SymbolView>)
    ensures
        normalize_spec(normalize_spec(s)) == normalize_spec(s),
{
    lemma_normalize_normalizes(s);
    lemma_normalize_noop(normalize_spec(s));
}

/// Wildcard absorption: a list containing the wildcard normalizes to the
/// single-element wildcard list.
pub proof fn lemma_wildcard_absorption(s: Seq<SymbolView>)
    requires
        contains_all(s),
    ensures
        normalize_spec(s) == seq![SymbolView::All],
{
}

/// Sortedness: a normalized wildcard-free list is strictly increasing under
/// the symbol order, and in particular repeats no element.
pub proof fn lemma_normalized_strictly_sorted(s: Seq<SymbolView>)
    requires
        !contains_all(s),
    ensures
        sorted(normalize_spec(s)),
        forall|i: int, j: int|
            0 <= i < j < normalize_spec(s).len() ==> normalize_spec(s)[i] != normalize_spec(s)[j],
{
    lemma_sort_syms(s);
    let out = normalize_spec(s);
    assert forall|i: int, j: int| 0 <= i < j < out.len() implies out[i] != out[j] by {
        lemma_sym_trichotomy(out[i], out[j]);
    }
}

/// Whether the texts agree at every position from `i` on (up to the shorter
/// length).
pub open spec fn chars_eq_from(a: Seq<char>, b: Seq<char>, i: int) -> bool
    decreases a.len() - i,
{
    if i >= a.len() || i >= b.len() {
        true
    } else {
        a[i] == b[i] && chars_eq_from(a, b, i + 1)
    }
}

proof fn lemma_chars_eq_from(a: Seq<char>, b: Seq<char>, i: int)
    requires
        0 <= i,
        a.len() == b.len(),
    ensures
        chars_eq_from(a, b, i) == (forall|k: int| i <= k < a.len() ==> a[k] == b[k]),
    decreases a.len() - i,
{
    if i < a.len() {
        lemma_chars_eq_from(a, b, i + 1);
    }
}

fn str_eq_from(a: &str, b: &str, i: usize) -> (r: bool)
    requires
        i <= a@.len(),
        i <= b@.len(),
    ensures
        r == chars_eq_from(a@, b@, i as int),
    decreases a@.len() - i,
{
    let alen = a.unicode_len();
    let blen = b.unicode_len();
    if i >= alen || i >= blen {
        true
    } else {
        let ca = a.get_char(i);
        let cb = b.get_char(i);
        if ca == cb {
            str_eq_from(a, b, i + 1)
        } else {
            false
        }
    }
}

/// Compare two pieces of text for equality, character by character.
pub fn str_eq(a: &str, b: &str) -> (r: bool)
    ensures
        r == (a@ == b@),
{
    let alen = a.unicode_len();
    let blen = b.unicode_len();
    if alen != blen {
        return false;
    }
    let r = str_eq_from(a, b, 0);
    proof {
        lemma_chars_eq_from(a@, b@, 0);
        if r {
            assert(a@ =~= b@);
        } else {
            if a@ == b@ {
                assert(forall|k: int| 0 <= k < a@.len() ==> a@[k] == b@[k]);
            }
        }
    }
    r
}

fn lex_lt_from_exec(a: &str, b: &str, i: usize) -> (r: bool)
    requires
        i <= a@.len(),
        i <= b@.len(),
    ensures
        r == lex_lt_from(a@, b@, i as int),
    decreases a@.len() - i,
{
    let alen = a.unicode_len();
    let blen = b.unicode_len();
    if i >= blen {
        false
    } else if i >= alen {
        true
    } else {
        let ca = a.get_char(i);
        let cb = b.get_char(i);
        if ca != cb {
            proof {
                lemma_char_neq(a@[i as int], b@[i as int]);
            }
            (ca as u32) < (cb as u32)
        } else {
            lex_lt_from_exec(a, b, i + 1)
        }
    }
}

/// Decide the symbol order between two symbols.
pub fn symbol_lt(a: &Symbol, b: &Symbol) -> (r: bool)
    ensures
        r == sym_lt(a@, b@),
{
    match (a, b) {
        (Symbol::Symbol(x), Symbol::Symbol(y)) => lex_lt_from_exec(x.as_str(), y.as_str(), 0),
        (Symbol::Symbol(_), Symbol::All) => true,
        (Symbol::All, _) => false,
    }
}

/// Decide whether two symbols stand for the same value.
pub fn symbol_eq(a: &Symbol, b: &Symbol) -> (r: bool)
    ensures
        r == (a@ == b@),
{
    match (a, b) {
        (Symbol::Symbol(x), Symbol::Symbol(y)) => str_eq(x.as_str(), y.as_str()),
        (Symbol::All, Symbol::All) => true,
        _ => false,
    }
}

fn contains_all_exec(symbols: &[Symbol]) -> (r: bool)
    ensures
        r == contains_all(views(symbols@)),
{
    let n = symbols.len();
    let mut i: usize = 0;
    while i < n
        invariant
            n == symbols@.len(),
            i <= n,
            forall|k: int| 0 <= k < i ==> views(symbols@)[k] != SymbolView::All,
        decreases n - i,
    {
        let is_all = match vstd::slice::slice_index_get(symbols, i) {
            Symbol::All => true,
            _ => false,
        };
        if is_all {
            assert(views(symbols@)[i as int] == SymbolView::All);
            return true;
        }
        i += 1;
    }
    false
}

/// Check whether a list of symbols is normalized: empty, the single
/// wildcard, or wildcard-free and strictly increasing under the symbol
/// order.
pub fn is_normalized(symbols: &[Symbol]) -> (r: bool)
    ensures
        r == is_normalized_spec(views(symbols@)),
{
    let n = symbols.len();
    if n > 1 && contains_all_exec(symbols) {
        return false;
    }
    let ghost vs = views(symbols@);
    let mut i: usize = 1;
    while i < n
        invariant
            n == symbols@.len(),
            1 <= i,
            i <= n || n == 0,
            vs == views(symbols@),
            forall|k: int| 0 < k < i ==> #[trigger] sym_lt(vs[k - 1], vs[k]),
        decreases n - i,
    {
        let prev = vstd::slice::slice_index_get(symbols, i - 1);
        let curr = vstd::slice::slice_index_get(symbols, i);
        if !symbol_lt(prev, curr) {
            proof {
                if !contains_all(vs) {
                    assert(!sym_lt(vs[i - 1], vs[i as int]));
                }
            }
            return false;
        }
        i += 1;
    }
    proof {
        lemma_consec_sorted(vs);
        if contains_all(vs) {
            assert(n == 1);
        }
    }
    true
}

proof fn lemma_chain_lt(s: Seq<SymbolView>, i: int, j: int)
    requires
        forall|k: int| 0 < k < s.len() ==> #[trigger] sym_lt(s[k - 1], s[k]),
        0 <= i < j < s.len(),
    ensures
        sym_lt(s[i], s[j]),
    decreases j - i,
{
    if j == i + 1 {
        assert(sym_lt(s[j - 1], s[j]));
    } else {
        lemma_chain_lt(s, i, j - 1);
        assert(sym_lt(s[j - 1], s[j]));
        lemma_sym_lt_trans(s[i], s[j - 1], s[j]);
    }
}

proof fn lemma_consec_sorted(s: Seq<SymbolView>)
    requires
        forall|k: int| 0 < k < s.len() ==> #[trigger] sym_lt(s[k - 1], s[k]),
    ensures
        sorted(s),
{
    assert forall|i: int, j: int| 0 <= i < j < s.len() implies sym_lt(s[i], s[j]) by {
        lemma_chain_lt(s, i, j);
    }
}

fn insert_symbol(out: &mut Vec<Symbol>, x: Symbol)
    requires
        sorted(views(old(out)@)),
    ensures
        sorted(views(final(out)@)),
        forall|v: SymbolView|
            #[trigger] views(final(out)@).contains(v) <==> (views(old(out)@).contains(v) || v
                == x@),
    decreases old(out)@.len(),
{
    let ghost pre = views(out@);
    let n = out.len();
    let mut j: usize = 0;
    let mut scanning = true;
    while scanning && j < n
        invariant
            n == out@.len(),
            j <= n,
            pre == views(out@),
            forall|k: int| 0 <= k < j ==> sym_lt(pre[k], x@),
            !scanning && j < n ==> !sym_lt(pre[j as int], x@),
        decreases n - j + (if scanning {
            1int
        } else {
            0int
        }),
    {
        if symbol_lt(&out[j], &x) {
            j += 1;
        } else {
            scanning = false;
        }
    }
    if j < n {
        if symbol_eq(&out[j], &x) {
            proof {
                assert(pre[j as int] == x@);
                assert(pre.contains(x@));
            }
            return ;
        }
    }
    proof {
        if j < n {
            lemma_sym_trichotomy(x@, pre[j as int]);
            assert(sym_lt(x@, pre[j as int]));
        }
    }
    out.insert(j, x);
    proof {
        let post = views(out@);
        assert forall|k: int| 0 <= k < post.len() implies post[k] == (if k < j {
            pre[k]
        } else if k == j {
            x@
        } else {
            pre[k - 1]
        }) by {
            assert(out@[k] == (if k < j {
                old(out)@[k]
            } else if k == j {
                x
            } else {
                old(out)@[k - 1]
            }));
        }
        assert forall|i1: int, j1: int| 0 <= i1 < j1 < post.len() implies sym_lt(
            post[i1],
            post[j1],
        ) by {
            let a = post[i1];
            let b = post[j1];
            if i1 < j && j1 < j {
            } else if i1 < j && j1 == j {
                if (i1 as usize) < j {
                }
                assert(sym_lt(pre[i1], x@));
            } else if i1 == j {
                // `x` comes before every element at or after position `j`.
                if j1 == j + 1 {
                    assert(b == pre[j1 - 1]);
                    assert(sym_lt(x@, pre[j as int]));
                } else {
                    assert(sym_lt(x@, pre[j as int]));
                    assert(sym_lt(pre[j as int], pre[j1 - 1]));
                    lemma_sym_lt_trans(x@, pre[j as int], pre[j1 - 1]);
                }
            } else if i1 < j && j1 > j {
                assert(sym_lt(pre[i1], x@));
                if j1 == j + 1 {
                    assert(b == pre[j as int]);
                    assert(sym_lt(x@, pre[j as int]));
                    lemma_sym_lt_trans(pre[i1], x@, pre[j as int]);
                } else {
                    assert(sym_lt(pre[i1], pre[j1 - 1]));
                }
            } else {
                assert(a == pre[i1 - 1] && b == pre[j1 - 1]);
            }
        }
        assert forall|v: SymbolView| #[trigger] post.contains(v) implies (pre.contains(v) || v
            == x@) by {
            let k = choose|k: int| 0 <= k < post.len() && post[k] == v;
            if k < j {
                assert(pre[k] == v);
            } else if k > j {
                assert(pre[k - 1] == v);
            }
        }
        assert forall|v: SymbolView| pre.contains(v) || v == x@ implies #[trigger] post.contains(
            v,
        ) by {
            if pre.contains(v) {
                let k = choose|k: int| 0 <= k < pre.len() && pre[k] == v;
                if k < j {
                    assert(post[k] == v);
                } else {
                    assert(post[k + 1] == v);
                }
            } else {
                assert(post[j as int] == v);
            }
        }
    }
}

/// Normalize a list of symbols: a list containing the wildcard collapses to
/// the single wildcard, any other list is sorted under the symbol order with
/// duplicates removed.  An already-normalized list is returned as it is.
pub fn normalize(symbols: Vec<Symbol>) -> (r: Vec<Symbol>)
    ensures
        views(r@) == normalize_spec(views(symbols@)),
        is_normalized_spec(views(symbols@)) ==> r@ == symbols@,
{
    let ghost orig = views(symbols@);
    if is_normalized(symbols.as_slice()) {
        proof {
            lemma_normalize_noop(orig);
        }
        return symbols;
    }
    if contains_all_exec(symbols.as_slice()) {
        let mut out: Vec<Symbol> = Vec::new();
        out.push(Symbol::All);
        proof {
            assert(views(out@) =~= seq![SymbolView::All]);
        }
        return out;
    }
    let ghost orig_syms = symbols@;
    let mut rest = symbols;
    let mut out: Vec<Symbol> = Vec::new();
    while rest.len() > 0
        invariant
            rest@.len() <= orig_syms.len(),
            rest@ == orig_syms.take(rest@.len() as int),
            orig == views(orig_syms),
            sorted(views(out@)),
            forall|v: SymbolView|
                #[trigger] views(out@).contains(v) <==> orig.skip(rest@.len() as int).contains(v),
        decreases rest@.len(),
    {
        let ghost k = rest@.len() as int;
        let x = match rest.pop() {
            Some(x) => x,
            None => {
                proof {
                    assert(false);
                }
                Symbol::All
            },
        };
        proof {
            assert(orig_syms.take(k)[k - 1] == orig_syms[k - 1]);
            assert(x == orig_syms[k - 1]);
            assert(orig[k - 1] == orig_syms[k - 1]@);
            assert(x@ == orig[k - 1]);
            assert(rest@ =~= orig_syms.take(k - 1));
        }
        let ghost out_pre = views(out@);
        insert_symbol(&mut out, x);
        proof {
            let post = views(out@);
            assert forall|v: SymbolView| #[trigger] post.contains(v) implies orig.skip(
                k - 1,
            ).contains(v) by {
                if out_pre.contains(v) {
                    assert(orig.skip(k).contains(v));
                    let m = choose|m: int| 0 <= m < orig.skip(k).len() && orig.skip(k)[m] == v;
                    assert(orig.skip(k)[m] == orig[k + m]);
                    assert(orig.skip(k - 1)[m + 1] == orig[k + m]);
                } else {
                    assert(v == orig[k - 1]);
                    assert(orig.skip(k - 1)[0] == orig[k - 1]);
                }
            }
            assert forall|v: SymbolView| orig.skip(k - 1).contains(v) implies #[trigger] post
                .contains(v) by {
                let m = choose|m: int|
                    0 <= m < orig.skip(k - 1).len() && #[trigger] orig.skip(k - 1)[m] == v;
                assert(orig.skip(k - 1)[m] == orig[k - 1 + m]);
                if m == 0 {
                    assert(v == x@);
                } else {
                    assert(orig.skip(k)[m - 1] == orig[k + m - 1]);
                    assert(orig.skip(k).contains(v));
                }
            }
        }
    }
    proof {
        assert(orig.skip(0) =~= orig);
        lemma_sort_syms(orig);
        lemma_sorted_unique(views(out@), sort_syms(orig));
    }
    out
}

/// The symbol a piece of text stands for: the text `*` names the wildcard,
/// any other text a specific instrument.
pub open spec fn symbol_from_spec(s: String) -> Symbol {
    if s@ == "*"@ {
        Symbol::All
    } else {
        Symbol::Symbol(s)
    }
}

impl From<String> for Symbol {
    /// Read a symbol from text: `*` is the wildcard, anything else a
    /// specific instrument identifier.
    fn from(symbol: String) -> (r: Self) {
        if str_eq(symbol.as_str(), "*") {
            Symbol::All
        } else {
            Symbol::Symbol(symbol)
        }
    }
}

impl vstd::std_specs::convert::FromSpecImpl<String> for Symbol {
    open spec fn obeys_from_spec() -> bool {
        true
    }

    open spec fn from_spec(v: String) -> Symbol {
        symbol_from_spec(v)
    }
}

/// Copy a symbol; the copy has the same value.
pub fn dup_symbol(x: &Symbol) -> (r: Symbol)
    ensures
        r@ == x@,
{
    match x {
        Symbol::Symbol(s) => Symbol::Symbol(String::from_str(s.as_str())),
        Symbol::All => Symbol::All,
    }
}

fn dup_symbols(v: &Vec<Symbol>) -> (r: Vec<Symbol>)
    ensures
        views(r@) == views(v@),
{
    let n = v.len();
    let mut out: Vec<Symbol> = Vec::new();
    let mut i: usize = 0;
    while i < n
        invariant
            n == v@.len(),
            i <= n,
            out@.len() == i,
            forall|k: int| 0 <= k < i ==> views(out@)[k] == views(v@)[k],
        decreases n - i,
    {
        out.push(dup_symbol(&v[i]));
        i += 1;
    }
    proof {
        assert(views(out@) =~= views(v@));
    }
    out
}

fn contains_symbol(v: &Vec<Symbol>, x: &Symbol) -> (r: bool)
    ensures
        r == views(v@).contains(x@),
{
    let n = v.len();
    let mut i: usize = 0;
    while i < n
        invariant
            n == v@.len(),
            i <= n,
            forall|k: int| 0 <= k < i ==> views(v@)[k] != x@,
        decreases n - i,
    {
        if symbol_eq(&v[i], x) {
            proof {
                assert(views(v@)[i as int] == x@);
            }
            return true;
        }
        i += 1;
    }
    false
}

/// The elements of `base` whose value does not occur in `gone`, in their
/// original order.
pub open spec fn remove_views(base: Seq<SymbolView>, gone: Seq<SymbolView>) -> Seq<SymbolView>
    decreases base.len(),
{
    if base.len() == 0 {
        Seq::empty()
    } else {
        let rest = remove_views(base.drop_last(), gone);
        if gone.contains(base.last()) {
            rest
        } else {
            rest.push(base.last())
        }
    }
}

/// A list of symbols that is guaranteed to be normalized.
#[derive(Clone, Debug, PartialEq)]
pub struct Normalized {
    symbols: Vec<Symbol>,
}

impl View for Normalized {
    type V = Seq<SymbolView>;

    closed spec fn view(&self) -> Seq<SymbolView> {
        views(self.symbols@)
    }
}

impl Normalized {
    /// The invariant carried by every `Normalized` value.
    pub open spec fn wf(&self) -> bool {
        is_normalized_spec(self@)
    }

    /// Normalize a list of symbols into the canonical form.
    pub fn new(symbols: Vec<Symbol>) -> (r: Self)
        ensures
            r@ == normalize_spec(views(symbols@)),
            r.wf(),
    {
        let ghost vs = views(symbols@);
        let out = normalize(symbols);
        proof {
            lemma_normalize_normalizes(vs);
        }
        Normalized { symbols: out }
    }

    /// The symbols of the list, in canonical order.
    pub fn symbols(&self) -> (r: &Vec<Symbol>)
        ensures
            views(r@) == self@,
    {
        &self.symbols
    }

    /// The number of symbols in the list.
    pub fn len(&self) -> (r: usize)
        ensures
            r == self@.len(),
    {
        self.symbols.len()
    }

    /// The normalized union of the two lists.
    pub fn merge(&self, other: &Normalized) -> (r: Normalized)
        ensures
            r@ == normalize_spec(self@ + other@),
            r.wf(),
    {
        let mut all = dup_symbols(&self.symbols);
        let n = other.symbols.len();
        let mut i: usize = 0;
        while i < n
            invariant
                n == other.symbols@.len(),
                i <= n,
                views(all@) =~= views(self.symbols@) + views(other.symbols@).take(i as int),
            decreases n - i,
        {
            let ghost pre = all@;
            all.push(dup_symbol(&other.symbols[i]));
            proof {
                let lhs = views(all@);
                let rhs = views(self.symbols@) + views(other.symbols@).take(i as int + 1);
                assert(all@ == pre.push(all@.last()));
                let a = views(self.symbols@);
                let t = views(other.symbols@);
                assert(views(pre).len() == pre.len());
                assert(t.take(i as int).len() == i as int);
                assert(t.take(i as int + 1).len() == i as int + 1);
                assert(pre.len() == a.len() + i as int);
                assert forall|k: int| 0 <= k < lhs.len() implies lhs[k] == rhs[k] by {
                    if k < pre.len() {
                        assert(all@[k] == pre[k]);
                        assert(lhs[k] == views(pre)[k]);
                        assert(views(pre)[k] == (a + t.take(i as int))[k]);
                        if k < a.len() {
                            assert(rhs[k] == a[k]);
                            assert((a + t.take(i as int))[k] == a[k]);
                        } else {
                            let m = k - a.len();
                            assert(rhs[k] == t.take(i as int + 1)[m]);
                            assert(t.take(i as int + 1)[m] == t[m]);
                            assert((a + t.take(i as int))[k] == t.take(i as int)[m]);
                            assert(t.take(i as int)[m] == t[m]);
                        }
                    } else {
                        let m = k - a.len();
                        assert(m == i as int);
                        assert(lhs[k] == all@.last()@);
                        assert(all@.last()@ == t[i as int]);
                        assert(rhs[k] == t.take(i as int + 1)[m]);
                        assert(t.take(i as int + 1)[m] == t[m]);
                    }
                }
                assert(lhs =~= rhs);
            }
            i += 1;
        }
        proof {
            assert(views(other.symbols@).take(n as int) =~= views(other.symbols@));
        }
        Normalized::new(all)
    }

    /// The normalized list of this list's symbols whose value is not in
    /// `gone`.
    pub fn remove(&self, gone: &Normalized) -> (r: Normalized)
        ensures
            r@ == normalize_spec(remove_views(self@, gone@)),
            r.wf(),
    {
        let n = self.symbols.len();
        let mut kept: Vec<Symbol> = Vec::new();
        let mut i: usize = 0;
        while i < n
            invariant
                n == self.symbols@.len(),
                i <= n,
                views(kept@) == remove_views(views(self.symbols@).take(i as int), gone@),
            decreases n - i,
        {
            let ghost pre = views(self.symbols@).take(i as int);
            let ghost cur = views(self.symbols@).take(i as int + 1);
            proof {
                assert(cur.drop_last() =~= pre);
                assert(cur.last() == views(self.symbols@)[i as int]);
            }
            if !contains_symbol(gone.symbols(), &self.symbols[i]) {
                kept.push(dup_symbol(&self.symbols[i]));
                proof {
                    assert(views(kept@) =~= remove_views(pre, gone@).push(cur.last()));
                }
            }
            i += 1;
        }
        proof {
            assert(views(self.symbols@).take(n as int) =~= views(self.symbols@));
        }
        Normalized::new(kept)
    }
}

impl Default for Normalized {
    /// The empty, trivially normalized list.
    fn default() -> (r: Self)
        ensures
            r@ == Seq::<SymbolView>::empty(),
            r.wf(),
    {
        let out = Normalized { symbols: Vec::new() };
        proof {
            assert(out@ =~= Seq::<SymbolView>::empty());
        }
        out
    }
}

/// The market data a client subscribes to, one normalized symbol list per
/// subscription category.
#[derive(Clone, Debug, PartialEq)]
pub struct MarketData {
    /// The aggregate bars to subscribe to.
    pub bars: Normalized,
}

impl MarketData {
    /// Set the `bars` category, normalizing the given symbols.
    pub fn set_bars(&mut self, symbols: Vec<Symbol>)
        ensures
            final(self).bars@ == normalize_spec(views(symbols@)),
            final(self).bars.wf(),
    {
        self.bars = Normalized::new(symbols);
    }
}

impl Default for MarketData {
    /// Market data with every category empty.
    fn default() -> (r: Self)
        ensures
            r.bars@ == Seq::<SymbolView>::empty(),
            r.bars.wf(),
    {
        MarketData { bars: Normalized::default() }
    }
}

} // verus!


//! The order of texts: lexicographic, character by character.

use vstd::prelude::*;

verus! {

/// `a` and `b` hold the same characters at every position before `k`.
pub open spec fn agree_before(a: Seq<char>, b: Seq<char>, k: int) -> bool {
    &&& 0 <= k <= a.len()
    &&& k <= b.len()
    &&& forall|i: int| 0 <= i < k ==> a[i] == b[i]
}

/// `a` comes strictly before `b`: at the first position where they differ `a`
/// has ended or holds the smaller character. This is how `str` orders its
/// values, so a list kept ascending by it reads like a `BTreeSet` of strings.
pub open spec fn lex_lt(a: Seq<char>, b: Seq<char>) -> bool {
    exists|k: int|
        #[trigger] agree_before(a, b, k) && k < b.len() && (k == a.len() || a[k] < b[k])
}

/// The views of a list of strings.
pub open spec fn texts(v: Seq<String>) -> Seq<Seq<char>> {
    v.map_values(|s: String| s@)
}

/// Every text of `s` comes strictly before those that follow it.
pub open spec fn ascending(s: Seq<Seq<char>>) -> bool {
    forall|i: int, j: int| 0 <= i < j < s.len() ==> lex_lt(#[trigger] s[i], #[trigger] s[j])
}

/// How one text stands to another.
#[derive(Clone, Copy, Debug, PartialEq, Eq, Structural)]
pub enum Place {
    Before,
    Same,
    After,
}

/// What `compare` answers for two texts.
pub open spec fn place_of(a: Seq<char>, b: Seq<char>) -> Place {
    if a == b {
        Place::Same
    } else if lex_lt(a, b) {
        Place::Before
    } else {
        Place::After
    }
}

/// No text comes before itself.
pub proof fn lemma_lex_lt_irreflexive(a: Seq<char>)
    ensures
        !lex_lt(a, a),
{
}

/// Two texts are never each before the other.
pub proof fn lemma_lex_lt_asymmetric(a: Seq<char>, b: Seq<char>)
    requires
        lex_lt(a, b),
    ensures
        !lex_lt(b, a),
{
    let k = choose|k: int|
        #[trigger] agree_before(a, b, k) && k < b.len() && (k == a.len() || a[k] < b[k]);
    if lex_lt(b, a) {
        let j = choose|j: int|
            #[trigger] agree_before(b, a, j) && j < a.len() && (j == b.len() || b[j] < a[j]);
        if j < k {
            assert(a[j] == b[j]);
        } else if k < j {
            assert(b[k] == a[k]);
        }
    }
}

/// The order is transitive.
pub proof fn lemma_lex_lt_transitive(a: Seq<char>, b: Seq<char>, c: Seq<char>)
    requires
        lex_lt(a, b),
        lex_lt(b, c),
    ensures
        lex_lt(a, c),
{
    let k = choose|k: int|
        #[trigger] agree_before(a, b, k) && k < b.len() && (k == a.len() || a[k] < b[k]);
    let j = choose|j: int|
        #[trigger] agree_before(b, c, j) && j < c.len() && (j == b.len() || b[j] < c[j]);
    let m = if k <= j { k } else { j };
    assert(agree_before(a, c, m));
}

/// The first position at or after `from` where `a` and `b` differ or one of
/// them ends.
pub open spec fn first_difference(a: Seq<char>, b: Seq<char>, from: int) -> int
    decreases a.len() - from,
{
    if 0 <= from < a.len() && from < b.len() && a[from] == b[from] {
        first_difference(a, b, from + 1)
    } else {
        from
    }
}

proof fn lemma_first_difference(a: Seq<char>, b: Seq<char>, from: int)
    requires
        agree_before(a, b, from),
    ensures
        agree_before(a, b, first_difference(a, b, from)),
        ({
            let k = first_difference(a, b, from);
            k == a.len() || k == b.len() || a[k] != b[k]
        }),
    decreases a.len() - from,
{
    if from < a.len() && from < b.len() && a[from] == b[from] {
        lemma_first_difference(a, b, from + 1);
    }
}

/// Of two different texts one comes before the other.
pub proof fn lemma_lex_lt_total(a: Seq<char>, b: Seq<char>)
    ensures
        a == b || lex_lt(a, b) || lex_lt(b, a),
{
    let k = first_difference(a, b, 0);
    lemma_first_difference(a, b, 0);
    assert(agree_before(b, a, k));
    if k == a.len() && k == b.len() {
        assert(a =~= b);
    } else if k < a.len() && k < b.len() {
        assert(a[k] < b[k] || b[k] < a[k]);
    }
}

/// The index of the first text at or after `from` that does not come before
/// `x`; the list's length if all do.
pub open spec fn rank(s: Seq<Seq<char>>, x: Seq<char>, from: int) -> int
    decreases s.len() - from,
{
    if 0 <= from < s.len() && lex_lt(s[from], x) {
        rank(s, x, from + 1)
    } else {
        from
    }
}

/// In an ascending list the rank of `x` is the place where `x` stands or
/// belongs.
pub proof fn lemma_rank(s: Seq<Seq<char>>, x: Seq<char>, from: int)
    requires
        0 <= from <= s.len(),
    ensures
        from <= rank(s, x, from) <= s.len(),
        forall|j: int| from <= j < rank(s, x, from) ==> lex_lt(#[trigger] s[j], x),
        rank(s, x, from) < s.len() ==> s[rank(s, x, from)] == x || lex_lt(
            x,
            s[rank(s, x, from)],
        ),
    decreases s.len() - from,
{
    if from < s.len() && lex_lt(s[from], x) {
        lemma_rank(s, x, from + 1);
    } else if from < s.len() {
        lemma_lex_lt_total(s[from], x);
    }
}

/// Compares two strings in the order of `lex_lt`.
pub fn compare(a: &str, b: &str) -> (r: Place)
    ensures
        r == place_of(a@, b@),
        r == Place::After ==> lex_lt(b@, a@),
{
    let n: usize = a.unicode_len();
    let m: usize = b.unicode_len();
    let mut i: usize = 0;
    while i < n && i < m
        invariant
            n == a@.len(),
            m == b@.len(),
            agree_before(a@, b@, i as int),
        decreases n - i,
    {
        let x: char = a.get_char(i);
        let y: char = b.get_char(i);
        if x < y {
            proof {
                lemma_lex_lt_asymmetric(a@, b@);
                lemma_lex_lt_irreflexive(a@);
            }
            return Place::Before;
        }
        if y < x {
            assert(agree_before(b@, a@, i as int));
            proof {
                lemma_lex_lt_asymmetric(b@, a@);
                lemma_lex_lt_irreflexive(a@);
            }
            return Place::After;
        }
        i = i + 1;
    }
    if n < m {
        proof {
            lemma_lex_lt_irreflexive(a@);
        }
        Place::Before
    } else if m < n {
        assert(agree_before(b@, a@, i as int));
        proof {
            lemma_lex_lt_asymmetric(b@, a@);
            lemma_lex_lt_irreflexive(a@);
        }
        Place::After
    } else {
        assert(a@ =~= b@);
        Place::Same
    }
}

/// Where `name` stands in an ascending list: the index of the first entry that
/// does not come before it, and whether that entry is `name` itself.
pub fn find(names: &Vec<String>, name: &str) -> (r: (usize, bool))
    requires
        ascending(texts(names@)),
    ensures
        r.0 <= names@.len(),
        forall|j: int| 0 <= j < r.0 ==> lex_lt(#[trigger] texts(names@)[j], name@),
        r.1 ==> r.0 < names@.len() && texts(names@)[r.0 as int] == name@,
        !r.1 ==> forall|j: int|
            r.0 <= j < names@.len() ==> lex_lt(name@, #[trigger] texts(names@)[j]),
        r.1 == texts(names@).contains(name@),
{
    let ghost s = texts(names@);
    let mut i: usize = 0;
    while i < names.len()
        invariant
            s == texts(names@),
            ascending(s),
            i <= names@.len(),
            forall|j: int| 0 <= j < i ==> lex_lt(#[trigger] s[j], name@),
        decreases names@.len() - i,
    {
        match compare(names[i].as_str(), name) {
            Place::Before => {
                i = i + 1;
            },
            Place::Same => {
                assert(s[i as int] == name@);
                return (i, true);
            },
            Place::After => {
                assert forall|j: int| i <= j < s.len() implies lex_lt(name@, #[trigger] s[j]) by {
                    if i < j {
                        assert(lex_lt(s[i as int], s[j]));
                        lemma_lex_lt_transitive(name@, s[i as int], s[j]);
                    }
                }
                proof {
                    lemma_absent(s, name@, i as int);
                }
                return (i, false);
            },
        }
    }
    proof {
        lemma_absent(s, name@, i as int);
    }
    (i, false)
}

/// A text that falls strictly between the entries before `at` and those from
/// `at` on is not in the list.
pub proof fn lemma_absent(s: Seq<Seq<char>>, name: Seq<char>, at: int)
    requires
        0 <= at <= s.len(),
        forall|j: int| 0 <= j < at ==> lex_lt(#[trigger] s[j], name),
        forall|j: int| at <= j < s.len() ==> lex_lt(name, #[trigger] s[j]),
    ensures
        !s.contains(name),
{
    if s.contains(name) {
        let j = choose|j: int| 0 <= j < s.len() && s[j] == name;
        lemma_lex_lt_irreflexive(name);
        if j < at {
            assert(lex_lt(s[j], name));
        } else {
            assert(lex_lt(name, s[j]));
        }
    }
}

/// Putting a text into an ascending list at the place where it belongs keeps
/// the list ascending and adds that text to what the list holds.
pub proof fn lemma_insert_ascending(s: Seq<Seq<char>>, name: Seq<char>, at: int)
    requires
        ascending(s),
        0 <= at <= s.len(),
        forall|j: int| 0 <= j < at ==> lex_lt(#[trigger] s[j], name),
        forall|j: int| at <= j < s.len() ==> lex_lt(name, #[trigger] s[j]),
    ensures
        ascending(s.insert(at, name)),
        s.insert(at, name).to_set() == s.to_set().insert(name),
{
    let after = s.insert(at, name);
    assert forall|i: int, j: int| 0 <= i < j < after.len() implies lex_lt(
        #[trigger] after[i],
        #[trigger] after[j],
    ) by {
        if j < at {
            assert(lex_lt(s[i], s[j]));
        } else if j == at {
            assert(lex_lt(s[i], name));
        } else if i < at {
            assert(lex_lt(s[i], s[j - 1]));
        } else if i == at {
            assert(lex_lt(name, s[j - 1]));
        } else {
            assert(lex_lt(s[i - 1], s[j - 1]));
        }
    }
    assert forall|n: Seq<char>| after.contains(n) <==> (s.contains(n) || n == name) by {
        if after.contains(n) {
            let k = choose|k: int| 0 <= k < after.len() && after[k] == n;
            if k < at {
                assert(s[k] == n);
            } else if k > at {
                assert(s[k - 1] == n);
            }
        }
        if s.contains(n) {
            let k = choose|k: int| 0 <= k < s.len() && s[k] == n;
            if k < at {
                assert(after[k] == n);
            } else {
                assert(after[k + 1] == n);
            }
        }
        if n == name {
            assert(after[at] == n);
        }
    }
    assert(after.to_set() =~= s.to_set().insert(name));
}

/// The texts of an ascending list differ from one another.
pub proof fn lemma_ascending_distinct(s: Seq<Seq<char>>)
    requires
        ascending(s),
    ensures
        s.no_duplicates(),
{
    assert forall|i: int, j: int| 0 <= i < s.len() && 0 <= j < s.len() && i != j implies s[i]
        != s[j] by {
        lemma_lex_lt_irreflexive(s[i]);
        if i < j {
            assert(lex_lt(s[i], s[j]));
        } else {
            assert(lex_lt(s[j], s[i]));
        }
    }
}

/// An ascending list is decided by what it holds: two ascending lists of the
/// same texts are the same list.
pub proof fn lemma_ascending_same_set(a: Seq<Seq<char>>, b: Seq<Seq<char>>)
    requires
        ascending(a),
        ascending(b),
        forall|x: Seq<char>| a.contains(x) <==> b.contains(x),
    ensures
        a == b,
    decreases a.len(),
{
    if a.len() == 0 {
        if b.len() > 0 {
            assert(b.contains(b[0]));
        }
        assert(a =~= b);
    } else {
        assert(a.contains(a[0]));
        let k = choose|k: int| 0 <= k < b.len() && b[k] == a[0];
        assert(b.contains(b[0]));
        let m = choose|m: int| 0 <= m < a.len() && a[m] == b[0];
        lemma_lex_lt_irreflexive(b[0]);
        if k > 0 {
            assert(lex_lt(b[0], b[k]));
            if m > 0 {
                assert(lex_lt(a[0], a[m]));
                lemma_lex_lt_transitive(b[0], a[0], b[0]);
            }
        }
        assert(a[0] == b[0]);
        let ta = a.skip(1);
        let tb = b.skip(1);
        assert forall|x: Seq<char>| ta.contains(x) <==> tb.contains(x) by {
            lemma_lex_lt_irreflexive(x);
            if ta.contains(x) {
                let i = choose|i: int| 0 <= i < ta.len() && ta[i] == x;
                assert(a[i + 1] == x);
                assert(lex_lt(a[0], a[i + 1]));
                assert(a.contains(x));
                let j = choose|j: int| 0 <= j < b.len() && b[j] == x;
                assert(j > 0);
                assert(tb[j - 1] == x);
            }
            if tb.contains(x) {
                let i = choose|i: int| 0 <= i < tb.len() && tb[i] == x;
                assert(b[i + 1] == x);
                assert(lex_lt(b[0], b[i + 1]));
                assert(b.contains(x));
                let j = choose|j: int| 0 <= j < a.len() && a[j] == x;
                assert(j > 0);
                assert(ta[j - 1] == x);
            }
        }
        assert forall|i: int, j: int| 0 <= i < j < ta.len() implies lex_lt(
            #[trigger] ta[i],
            #[trigger] ta[j],
        ) by {
            assert(lex_lt(a[i + 1], a[j + 1]));
        }
        assert forall|i: int, j: int| 0 <= i < j < tb.len() implies lex_lt(
            #[trigger] tb[i],
            #[trigger] tb[j],
        ) by {
            assert(lex_lt(b[i + 1], b[j + 1]));
        }
        lemma_ascending_same_set(ta, tb);
        assert(a =~= seq![a[0]] + ta);
        assert(b =~= seq![b[0]] + tb);
    }
}

/// A list that grows by one string grows by that string's text.
pub proof fn lemma_texts_push(v: Seq<String>, s: String)
    ensures
        texts(v.push(s)) == texts(v).push(s@),
        texts(v.push(s)).to_set() == texts(v).to_set().insert(s@),
{
    let a = texts(v);
    let b = texts(v.push(s));
    assert(b =~= a.push(s@));
    assert forall|n: Seq<char>| b.contains(n) <==> (a.contains(n) || n == s@) by {
        if b.contains(n) {
            let k = choose|k: int| 0 <= k < b.len() && b[k] == n;
            if k < a.len() {
                assert(a[k] == n);
            }
        }
        if a.contains(n) {
            let k = choose|k: int| 0 <= k < a.len() && a[k] == n;
            assert(b[k] == n);
        }
        if n == s@ {
            assert(b[a.len() as int] == n);
        }
    }
    assert(b.to_set() =~= a.to_set().insert(s@));
}

} // verus!

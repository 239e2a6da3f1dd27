//! Character-level text primitives shared by the config parsers: Unicode
//! whitespace, trimming, word splitting, line splitting, ASCII
//! case-insensitive comparison and decimal `u16` conversion. Every operation
//! works on `Vec<char>` and is specified over `Seq<char>`.
use vstd::prelude::*;

verus! {

// ---------------------------------------------------------------------------
// Sequence helpers
// ---------------------------------------------------------------------------
pub proof fn lemma_map_push<A, B>(s: Seq<A>, x: A, f: spec_fn(A) -> B)
    ensures
        s.push(x).map_values(f) == s.map_values(f).push(f(x)),
{
    assert(s.push(x).map_values(f) =~= s.map_values(f).push(f(x)));
}

pub proof fn lemma_map_take_succ<A, B>(s: Seq<A>, i: int, f: spec_fn(A) -> B)
    requires
        0 <= i < s.len(),
    ensures
        s.take(i + 1).map_values(f) == s.take(i).map_values(f).push(f(s[i])),
{
    assert(s.take(i + 1) =~= s.take(i).push(s[i]));
    lemma_map_push(s.take(i), s[i], f);
}

pub proof fn lemma_filter_map_add<A, B>(a: Seq<A>, b: Seq<A>, f: spec_fn(A) -> Option<B>)
    ensures
        (a + b).filter_map(f) == a.filter_map(f) + b.filter_map(f),
    decreases b.len(),
{
    if b.len() == 0 {
        assert(a + b =~= a);
        assert(a.filter_map(f) + b.filter_map(f) =~= a.filter_map(f));
    } else {
        lemma_filter_map_add(a, b.drop_last(), f);
        assert((a + b).drop_last() =~= a + b.drop_last());
        assert((a + b).last() == b.last());
        match f(b.last()) {
            Some(x) => {
                assert((a + b).filter_map(f) =~= a.filter_map(f) + b.filter_map(f));
            },
            None => {
                assert((a + b).filter_map(f) =~= a.filter_map(f) + b.filter_map(f));
            },
        }
    }
}

pub proof fn lemma_filter_map_single<A, B>(a: A, f: spec_fn(A) -> Option<B>)
    ensures
        seq![a].filter_map(f) == (match f(a) {
            Some(x) => seq![x],
            None => Seq::<B>::empty(),
        }),
{
    reveal_with_fuel(Seq::filter_map, 2);
    assert(seq![a].drop_last() =~= Seq::<A>::empty());
    assert(seq![a].filter_map(f) =~= (match f(a) {
        Some(x) => seq![x],
        None => Seq::<B>::empty(),
    }));
}

pub proof fn lemma_filter_map_empty<A, B>(s: Seq<A>, f: spec_fn(A) -> Option<B>)
    requires
        forall|i: int| 0 <= i < s.len() ==> f(#[trigger] s[i]) is None,
    ensures
        s.filter_map(f) == Seq::<B>::empty(),
    decreases s.len(),
{
    if s.len() > 0 {
        assert forall|i: int| 0 <= i < s.drop_last().len() implies f(
            #[trigger] s.drop_last()[i],
        ) is None by {
            assert(s.drop_last()[i] == s[i]);
        }
        lemma_filter_map_empty(s.drop_last(), f);
        assert(f(s[s.len() - 1]) is None);
    }
}

pub proof fn lemma_filter_map_take_succ<A, B>(s: Seq<A>, i: int, f: spec_fn(A) -> Option<B>)
    requires
        0 <= i < s.len(),
    ensures
        s.take(i + 1).filter_map(f) == s.take(i).filter_map(f) + (match f(s[i]) {
            Some(x) => seq![x],
            None => Seq::<B>::empty(),
        }),
{
    assert(s.take(i + 1) =~= s.take(i) + seq![s[i]]);
    lemma_filter_map_add(s.take(i), seq![s[i]], f);
    lemma_filter_map_single(s[i], f);
}

/// Every collected value comes from some element.
pub proof fn lemma_filter_map_source<A, B>(s: Seq<A>, f: spec_fn(A) -> Option<B>, k: int)
    requires
        0 <= k < s.filter_map(f).len(),
    ensures
        exists|i: int| 0 <= i < s.len() && #[trigger] f(s[i]) == Some(s.filter_map(f)[k]),
    decreases s.len(),
{
    let s0 = s.drop_last();
    assert(s =~= s0 + seq![s.last()]);
    lemma_filter_map_add(s0, seq![s.last()], f);
    lemma_filter_map_single(s.last(), f);
    if k < s0.filter_map(f).len() {
        lemma_filter_map_source(s0, f, k);
        let i = choose|i: int| 0 <= i < s0.len() && #[trigger] f(s0[i]) == Some(s0.filter_map(f)[k]);
        assert(s[i] == s0[i]);
    } else {
        assert(f(s[s.len() - 1]) == Some(s.filter_map(f)[k]));
    }
}

/// The value of an element that `f` keeps is collected.
pub proof fn lemma_filter_map_contains<A, B>(s: Seq<A>, f: spec_fn(A) -> Option<B>, k: int)
    requires
        0 <= k < s.len(),
        f(s[k]) is Some,
    ensures
        s.filter_map(f).contains(f(s[k])->0),
{
    let y = f(s[k])->0;
    assert(s =~= s.take(k) + seq![s[k]] + s.skip(k + 1));
    lemma_filter_map_add(s.take(k) + seq![s[k]], s.skip(k + 1), f);
    lemma_filter_map_add(s.take(k), seq![s[k]], f);
    lemma_filter_map_single(s[k], f);
    let fm = s.filter_map(f);
    assert(fm[s.take(k).filter_map(f).len() as int] == y);
}

/// The characters of each vector.
pub open spec fn char_vecs(v: Seq<Vec<char>>) -> Seq<Seq<char>> {
    v.map_values(|w: Vec<char>| w@)
}

// ---------------------------------------------------------------------------
// Whitespace
// ---------------------------------------------------------------------------
/// The Unicode `White_Space` property, as used by `char::is_whitespace`.
pub open spec fn is_ws(c: char) -> bool {
    let u = c as u32;
    (9 <= u && u <= 13) || u == 32 || u == 0x85 || u == 0xa0 || u == 0x1680 || (0x2000 <= u
        && u <= 0x200a) || u == 0x2028 || u == 0x2029 || u == 0x202f || u == 0x205f || u == 0x3000
}

pub fn is_ws_char(c: char) -> (b: bool)
    ensures
        b == is_ws(c),
{
    let u = c as u32;
    (9 <= u && u <= 13) || u == 32 || u == 0x85 || u == 0xa0 || u == 0x1680 || (0x2000 <= u && u
        <= 0x200a) || u == 0x2028 || u == 0x2029 || u == 0x202f || u == 0x205f || u == 0x3000
}

/// Number of leading whitespace characters.
pub open spec fn lead_ws(s: Seq<char>) -> nat
    decreases s.len(),
{
    if s.len() > 0 && is_ws(s[0]) {
        1 + lead_ws(s.drop_first())
    } else {
        0
    }
}

/// Number of trailing whitespace characters.
pub open spec fn trail_ws(s: Seq<char>) -> nat
    decreases s.len(),
{
    if s.len() > 0 && is_ws(s.last()) {
        1 + trail_ws(s.drop_last())
    } else {
        0
    }
}

pub open spec fn trim_start(s: Seq<char>) -> Seq<char> {
    s.skip(lead_ws(s) as int)
}

pub open spec fn trim_end(s: Seq<char>) -> Seq<char> {
    s.take(s.len() - trail_ws(s))
}

pub open spec fn trim(s: Seq<char>) -> Seq<char> {
    trim_end(trim_start(s))
}

pub proof fn lemma_lead_ws_bound(s: Seq<char>)
    ensures
        lead_ws(s) <= s.len(),
        forall|i: int| 0 <= i < lead_ws(s) ==> is_ws(#[trigger] s[i]),
        lead_ws(s) < s.len() ==> !is_ws(s[lead_ws(s) as int]),
    decreases s.len(),
{
    if s.len() > 0 && is_ws(s[0]) {
        lemma_lead_ws_bound(s.drop_first());
        assert forall|i: int| 0 <= i < lead_ws(s) implies is_ws(#[trigger] s[i]) by {
            if i > 0 {
                assert(s[i] == s.drop_first()[i - 1]);
            }
        }
    }
}

/// `lead_ws` is determined by the first non-whitespace position.
pub proof fn lemma_lead_ws_at(s: Seq<char>, k: int)
    requires
        0 <= k <= s.len(),
        forall|i: int| 0 <= i < k ==> is_ws(#[trigger] s[i]),
        k < s.len() ==> !is_ws(s[k]),
    ensures
        lead_ws(s) == k,
    decreases k,
{
    if k > 0 {
        assert forall|i: int| 0 <= i < k - 1 implies is_ws(#[trigger] s.drop_first()[i]) by {
            assert(s.drop_first()[i] == s[i + 1]);
        }
        lemma_lead_ws_at(s.drop_first(), k - 1);
    }
}

/// `trail_ws` is determined by the last non-whitespace position.
pub proof fn lemma_trail_ws_at(s: Seq<char>, k: int)
    requires
        0 <= k <= s.len(),
        forall|i: int| k <= i < s.len() ==> is_ws(#[trigger] s[i]),
        k > 0 ==> !is_ws(s[k - 1]),
    ensures
        trail_ws(s) == s.len() - k,
    decreases s.len() - k,
{
    if k < s.len() {
        assert forall|i: int| k <= i < s.len() - 1 implies is_ws(#[trigger] s.drop_last()[i]) by {
            assert(s.drop_last()[i] == s[i]);
        }
        if k > 0 {
            assert(s.drop_last()[k - 1] == s[k - 1]);
        }
        lemma_trail_ws_at(s.drop_last(), k);
    }
}

/// Trimming characterized by the first and last non-whitespace positions.
pub proof fn lemma_trim_bounds(s: Seq<char>, a: int, b: int)
    requires
        0 <= a <= b <= s.len(),
        forall|i: int| 0 <= i < a ==> is_ws(#[trigger] s[i]),
        forall|i: int| b <= i < s.len() ==> is_ws(#[trigger] s[i]),
        a < b ==> !is_ws(s[a]) && !is_ws(s[b - 1]),
        a == b ==> a == s.len(),
    ensures
        trim(s) == s.subrange(a, b),
        trim_start(s) == s.subrange(a, s.len() as int),
{
    lemma_lead_ws_at(s, a);
    let t = s.skip(a);
    assert forall|i: int| b - a <= i < t.len() implies is_ws(#[trigger] t[i]) by {
        assert(t[i] == s[i + a]);
    }
    if b - a > 0 {
        assert(t[b - a - 1] == s[b - 1]);
    }
    lemma_trail_ws_at(t, b - a);
    assert(trim(s) =~= s.subrange(a, b));
    assert(trim_start(s) =~= s.subrange(a, s.len() as int));
}

/// Index of the first non-whitespace character.
pub fn skip_ws(s: &Vec<char>) -> (k: usize)
    ensures
        k == lead_ws(s@),
        k <= s.len(),
{
    let mut i: usize = 0;
    while i < s.len() && is_ws_char(s[i])
        invariant
            i <= s.len(),
            forall|j: int| 0 <= j < i ==> is_ws(#[trigger] s@[j]),
        decreases s.len() - i,
    {
        i += 1;
    }
    proof {
        lemma_lead_ws_at(s@, i as int);
    }
    i
}

/// A copy of `s[lo..hi]`.
pub fn slice_of(s: &Vec<char>, lo: usize, hi: usize) -> (r: Vec<char>)
    requires
        lo <= hi <= s.len(),
    ensures
        r@ == s@.subrange(lo as int, hi as int),
{
    let mut r: Vec<char> = Vec::new();
    let mut i = lo;
    while i < hi
        invariant
            lo <= i <= hi <= s.len(),
            r@ == s@.subrange(lo as int, i as int),
        decreases hi - i,
    {
        r.push(s[i]);
        i += 1;
        assert(r@ =~= s@.subrange(lo as int, i as int));
    }
    r
}

/// `s.trim_start()`.
pub fn trim_start_chars(s: &Vec<char>) -> (r: Vec<char>)
    ensures
        r@ == trim_start(s@),
{
    let k = skip_ws(s);
    slice_of(s, k, s.len())
}

/// `s.trim()`.
pub fn trim_chars(s: &Vec<char>) -> (r: Vec<char>)
    ensures
        r@ == trim(s@),
{
    let a = skip_ws(s);
    let mut b = s.len();
    while b > a && is_ws_char(s[b - 1])
        invariant
            a <= b <= s.len(),
            forall|i: int| b <= i < s.len() ==> is_ws(#[trigger] s@[i]),
        decreases b,
    {
        b -= 1;
    }
    proof {
        lemma_lead_ws_bound(s@);
        lemma_trim_bounds(s@, a as int, b as int);
    }
    slice_of(s, a, b)
}

/// Length of the leading run of non-whitespace characters.
pub open spec fn word_len(s: Seq<char>) -> nat
    decreases s.len(),
{
    if s.len() > 0 && !is_ws(s[0]) {
        1 + word_len(s.drop_first())
    } else {
        0
    }
}

pub proof fn lemma_word_len_bound(s: Seq<char>)
    ensures
        word_len(s) <= s.len(),
        forall|i: int| 0 <= i < word_len(s) ==> !is_ws(#[trigger] s[i]),
        word_len(s) < s.len() ==> is_ws(s[word_len(s) as int]),
    decreases s.len(),
{
    if s.len() > 0 && !is_ws(s[0]) {
        lemma_word_len_bound(s.drop_first());
        assert forall|i: int| 0 <= i < word_len(s) implies !is_ws(#[trigger] s[i]) by {
            if i > 0 {
                assert(s[i] == s.drop_first()[i - 1]);
            }
        }
    }
}

pub proof fn lemma_word_len_at(s: Seq<char>, k: int)
    requires
        0 <= k <= s.len(),
        forall|i: int| 0 <= i < k ==> !is_ws(#[trigger] s[i]),
        k < s.len() ==> is_ws(s[k]),
    ensures
        word_len(s) == k,
    decreases k,
{
    if k > 0 {
        assert forall|i: int| 0 <= i < k - 1 implies !is_ws(#[trigger] s.drop_first()[i]) by {
            assert(s.drop_first()[i] == s[i + 1]);
        }
        lemma_word_len_at(s.drop_first(), k - 1);
    }
}

/// Index of the first whitespace character (or the length).
pub fn first_ws(s: &Vec<char>) -> (k: usize)
    ensures
        k == word_len(s@),
        k <= s.len(),
{
    let mut i: usize = 0;
    while i < s.len() && !is_ws_char(s[i])
        invariant
            i <= s.len(),
            forall|j: int| 0 <= j < i ==> !is_ws(#[trigger] s@[j]),
        decreases s.len() - i,
    {
        i += 1;
    }
    proof {
        lemma_word_len_at(s@, i as int);
    }
    i
}

/// `s.split_whitespace()`: the maximal runs of non-whitespace characters.
pub open spec fn words(s: Seq<char>) -> Seq<Seq<char>>
    decreases s.len(),
{
    if s.len() == 0 {
        seq![]
    } else if is_ws(s[0]) {
        words(s.drop_first())
    } else {
        let k = word_len(s);
        proof {
            lemma_word_len_bound(s);
        }
        seq![s.take(k as int)] + words(s.skip(k as int))
    }
}

/// `s.split_whitespace().map(String::from).collect()`.
pub fn split_words(s: &Vec<char>) -> (r: Vec<Vec<char>>)
    ensures
        r@.map_values(|w: Vec<char>| w@) == words(s@),
{
    let mut r: Vec<Vec<char>> = Vec::new();
    let mut i: usize = 0;
    assert(s@.skip(0) =~= s@);
    while i < s.len()
        invariant
            i <= s.len(),
            r@.map_values(|w: Vec<char>| w@) + words(s@.skip(i as int)) == words(s@),
        decreases s.len() - i,
    {
        let ghost rest = s@.skip(i as int);
        if is_ws_char(s[i]) {
            assert(rest.drop_first() =~= s@.skip(i + 1));
            i += 1;
        } else {
            let mut j = i;
            while j < s.len() && !is_ws_char(s[j])
                invariant
                    i <= j <= s.len(),
                    forall|k: int| i <= k < j ==> !is_ws(#[trigger] s@[k]),
                decreases s.len() - j,
            {
                j += 1;
            }
            proof {
                assert forall|k: int| 0 <= k < j - i implies !is_ws(#[trigger] rest[k]) by {
                    assert(rest[k] == s@[k + i]);
                }
                if j < s.len() {
                    assert(rest[j - i] == s@[j as int]);
                }
                lemma_word_len_at(rest, j - i);
                assert(rest.take(j - i) =~= s@.subrange(i as int, j as int));
                assert(rest.skip(j - i) =~= s@.skip(j as int));
            }
            let w = slice_of(s, i, j);
            let ghost before = r@;
            r.push(w);
            assert(r@.map_values(|w: Vec<char>| w@) =~= before.map_values(|w: Vec<char>| w@).push(
                w@,
            ));
            i = j;
        }
    }
    assert(s@.skip(i as int) =~= Seq::<char>::empty());
    assert(r@.map_values(|w: Vec<char>| w@) =~= r@.map_values(|w: Vec<char>| w@) + words(
        Seq::<char>::empty(),
    ));
    r
}

/// A run of non-whitespace characters is a single word.
pub proof fn lemma_words_single(a: Seq<char>)
    requires
        a.len() > 0,
        forall|i: int| 0 <= i < a.len() ==> !is_ws(#[trigger] a[i]),
    ensures
        words(a) == seq![a],
{
    lemma_word_len_at(a, a.len() as int);
    assert(!is_ws(a[0]));
    assert(a.take(a.len() as int) =~= a);
    assert(a.skip(a.len() as int) =~= Seq::<char>::empty());
    assert(words(Seq::<char>::empty()) == Seq::<Seq<char>>::empty());
    assert(words(a) == seq![a.take(a.len() as int)] + words(a.skip(a.len() as int)));
    assert(words(a) =~= seq![a]);
}

/// Two words separated by a single space split back into those two words.
pub proof fn lemma_words_pair(a: Seq<char>, b: Seq<char>)
    requires
        a.len() > 0,
        b.len() > 0,
        forall|i: int| 0 <= i < a.len() ==> !is_ws(#[trigger] a[i]),
        forall|i: int| 0 <= i < b.len() ==> !is_ws(#[trigger] b[i]),
    ensures
        words(a + seq![' '] + b) == seq![a, b],
{
    let s = a + seq![' '] + b;
    assert forall|i: int| 0 <= i < a.len() implies !is_ws(#[trigger] s[i]) by {
        assert(s[i] == a[i]);
    }
    assert(s[a.len() as int] == ' ');
    lemma_word_len_at(s, a.len() as int);
    let rest = s.skip(a.len() as int);
    assert(rest[0] == ' ');
    assert(rest.drop_first() =~= b);
    lemma_words_single(b);
    assert(is_ws(rest[0]));
    assert(words(rest) == words(rest.drop_first()));
    assert(s.take(a.len() as int) =~= a);
    assert(!is_ws(s[0]));
    assert(words(s) == seq![s.take(a.len() as int)] + words(rest));
    assert(words(s) =~= seq![a, b]);
}

// ---------------------------------------------------------------------------
// Searching, prefixes, ASCII case
// ---------------------------------------------------------------------------
/// Position of the first occurrence of `c`.
pub open spec fn index_of(s: Seq<char>, c: char) -> Option<int>
    decreases s.len(),
{
    if s.len() == 0 {
        None
    } else if s[0] == c {
        Some(0)
    } else {
        match index_of(s.drop_first(), c) {
            Some(k) => Some(k + 1),
            None => None,
        }
    }
}

pub proof fn lemma_index_of(s: Seq<char>, c: char)
    ensures
        index_of(s, c) matches Some(k) ==> 0 <= k < s.len() && s[k] == c && forall|j: int|
            0 <= j < k ==> s[j] != c,
        index_of(s, c) is None ==> forall|j: int| 0 <= j < s.len() ==> s[j] != c,
    decreases s.len(),
{
    if s.len() > 0 && s[0] != c {
        lemma_index_of(s.drop_first(), c);
        if let Some(k) = index_of(s, c) {
            assert forall|j: int| 0 <= j < k implies s[j] != c by {
                if j > 0 {
                    assert(s[j] == s.drop_first()[j - 1]);
                }
            }
        } else {
            assert forall|j: int| 0 <= j < s.len() implies s[j] != c by {
                if j > 0 {
                    assert(s[j] == s.drop_first()[j - 1]);
                }
            }
        }
    }
}

pub proof fn lemma_index_of_at(s: Seq<char>, c: char, k: int)
    requires
        0 <= k <= s.len(),
        forall|j: int| 0 <= j < k ==> s[j] != c,
        k < s.len() ==> s[k] == c,
    ensures
        index_of(s, c) == (if k < s.len() {
            Some(k)
        } else {
            None::<int>
        }),
    decreases k,
{
    if k > 0 {
        assert forall|j: int| 0 <= j < k - 1 implies s.drop_first()[j] != c by {
            assert(s.drop_first()[j] == s[j + 1]);
        }
        if k < s.len() {
            assert(s.drop_first()[k - 1] == s[k]);
        }
        lemma_index_of_at(s.drop_first(), c, k - 1);
    }
}

/// `s.find(c)` counted in characters.
pub fn find_char(s: &Vec<char>, c: char) -> (r: Option<usize>)
    ensures
        r matches Some(k) ==> index_of(s@, c) == Some(k as int),
        r is None ==> index_of(s@, c) is None,
{
    let mut i: usize = 0;
    while i < s.len()
        invariant
            i <= s.len(),
            forall|j: int| 0 <= j < i ==> s@[j] != c,
        decreases s.len() - i,
    {
        if s[i] == c {
            proof {
                lemma_index_of_at(s@, c, i as int);
            }
            return Some(i);
        }
        i += 1;
    }
    proof {
        lemma_index_of_at(s@, c, i as int);
    }
    None
}

/// Whether `c` occurs in `s`.
pub fn contains_char(s: &Vec<char>, c: char) -> (b: bool)
    ensures
        b == s@.contains(c),
{
    let r = find_char(s, c);
    proof {
        lemma_index_of(s@, c);
    }
    match r {
        Some(k) => {
            assert(s@[k as int] == c);
            true
        },
        None => false,
    }
}

/// Position of the first occurrence of the non-empty pattern `p`.
pub open spec fn index_of_seq(s: Seq<char>, p: Seq<char>) -> Option<int>
    decreases s.len(),
{
    if s.len() < p.len() {
        None
    } else if s.take(p.len() as int) == p {
        Some(0)
    } else if s.len() == 0 {
        None
    } else {
        match index_of_seq(s.drop_first(), p) {
            Some(k) => Some(k + 1),
            None => None,
        }
    }
}

pub proof fn lemma_index_of_seq(s: Seq<char>, p: Seq<char>)
    ensures
        index_of_seq(s, p) matches Some(k) ==> 0 <= k && k + p.len() <= s.len() && s.subrange(
            k,
            k + p.len(),
        ) == p,
    decreases s.len(),
{
    if s.len() >= p.len() && s.take(p.len() as int) != p && s.len() > 0 {
        lemma_index_of_seq(s.drop_first(), p);
        if let Some(k) = index_of_seq(s.drop_first(), p) {
            assert(s.subrange(k + 1, k + 1 + p.len()) =~= s.drop_first().subrange(k, k + p.len()));
        }
    } else if s.len() >= p.len() && s.take(p.len() as int) == p {
        assert(s.subrange(0, p.len() as int) =~= s.take(p.len() as int));
    }
}

/// The first occurrence of a non-empty pattern, when no earlier position
/// holds its first character.
pub proof fn lemma_index_of_seq_at(s: Seq<char>, p: Seq<char>, k: int)
    requires
        p.len() > 0,
        0 <= k,
        k + p.len() <= s.len(),
        s.subrange(k, k + p.len()) == p,
        forall|j: int| 0 <= j < k ==> s[j] != p[0],
    ensures
        index_of_seq(s, p) == Some(k),
    decreases k,
{
    if k == 0 {
        assert(s.take(p.len() as int) =~= s.subrange(0, p.len() as int));
    } else {
        assert(s.take(p.len() as int)[0] == s[0]);
        assert(s.take(p.len() as int) != p);
        let d = s.drop_first();
        assert(d.subrange(k - 1, k - 1 + p.len()) =~= s.subrange(k, k + p.len()));
        assert forall|j: int| 0 <= j < k - 1 implies d[j] != p[0] by {
            assert(d[j] == s[j + 1]);
        }
        lemma_index_of_seq_at(d, p, k - 1);
    }
}

/// `s.find(p)` for a pattern of characters.
pub fn find_seq(s: &Vec<char>, p: &Vec<char>) -> (r: Option<usize>)
    ensures
        r matches Some(k) ==> index_of_seq(s@, p@) == Some(k as int),
        r is None ==> index_of_seq(s@, p@) is None,
{
    let mut i: usize = 0;
    assert(s@.skip(0) =~= s@);
    while i <= s.len()
        invariant
            i <= s.len() + 1,
            i <= s.len() ==> index_of_seq(s@, p@) == (match index_of_seq(s@.skip(i as int), p@) {
                Some(k) => Some(k + i),
                None => None::<int>,
            }),
            i > s.len() ==> index_of_seq(s@, p@) is None,
        decreases s.len() + 1 - i,
    {
        let ghost rest = s@.skip(i as int);
        if s.len() - i < p.len() {
            assert(index_of_seq(rest, p@) is None);
            return None;
        }
        let mut j: usize = 0;
        let mut same = true;
        while j < p.len()
            invariant
                i + p.len() <= s.len(),
                j <= p.len(),
                same == (forall|m: int| 0 <= m < j ==> s@[i + m] == p@[m]),
            decreases p.len() - j,
        {
            if s[i + j] != p[j] {
                same = false;
            }
            j += 1;
        }
        if same {
            assert(rest.take(p.len() as int) =~= p@);
            return Some(i);
        }
        proof {
            if rest.take(p.len() as int) == p@ {
                assert forall|m: int| 0 <= m < p.len() implies s@[i + m] == p@[m] by {
                    assert(rest.take(p.len() as int)[m] == s@[i + m]);
                }
            }
        }
        if i == s.len() {
            assert(rest.len() == 0);
            assert(index_of_seq(rest, p@) is None);
            return None;
        }
        assert(rest.drop_first() =~= s@.skip(i + 1));
        i += 1;
    }
    None
}

pub open spec fn starts_with(s: Seq<char>, p: Seq<char>) -> bool {
    p.len() <= s.len() && s.take(p.len() as int) == p
}

/// `s.starts_with(p)`.
pub fn has_prefix(s: &Vec<char>, p: &Vec<char>) -> (b: bool)
    ensures
        b == starts_with(s@, p@),
{
    if p.len() > s.len() {
        return false;
    }
    let mut i: usize = 0;
    while i < p.len()
        invariant
            p.len() <= s.len(),
            i <= p.len(),
            forall|j: int| 0 <= j < i ==> s@[j] == p@[j],
        decreases p.len() - i,
    {
        if s[i] != p[i] {
            assert(s@.take(p.len() as int)[i as int] != p@[i as int]);
            return false;
        }
        i += 1;
    }
    assert(s@.take(p.len() as int) =~= p@);
    true
}

/// ASCII lower-casing of one character (`char::to_ascii_lowercase`).
pub open spec fn lower(c: char) -> char {
    if 'A' <= c && c <= 'Z' {
        ((c as u32) + 32) as char
    } else {
        c
    }
}

pub fn lower_char(c: char) -> (r: char)
    ensures
        r == lower(c),
{
    if 'A' <= c && c <= 'Z' {
        let v = (c as u8) + 32;
        assert(v as u32 == (c as u32) + 32);
        v as char
    } else {
        c
    }
}

/// ASCII upper-casing of one character (`char::to_ascii_uppercase`).
pub open spec fn upper(c: char) -> char {
    if 'a' <= c && c <= 'z' {
        ((c as u32) - 32) as char
    } else {
        c
    }
}

pub fn upper_char(c: char) -> (r: char)
    ensures
        r == upper(c),
{
    if 'a' <= c && c <= 'z' {
        let v = (c as u8) - 32;
        assert(v as u32 == (c as u32) - 32);
        v as char
    } else {
        c
    }
}

/// ASCII upper-casing of every character.
pub fn upper_chars(v: &Vec<char>) -> (r: Vec<char>)
    ensures
        r@ == v@.map_values(|c: char| upper(c)),
{
    let mut r: Vec<char> = Vec::new();
    let mut i: usize = 0;
    while i < v.len()
        invariant
            i <= v.len(),
            r@ == v@.take(i as int).map_values(|c: char| upper(c)),
        decreases v.len() - i,
    {
        let ghost prev = r@;
        r.push(upper_char(v[i]));
        proof {
            lemma_map_take_succ(v@, i as int, |c: char| upper(c));
        }
        i += 1;
    }
    assert(v@.take(i as int) =~= v@);
    r
}

/// `a.eq_ignore_ascii_case(b)`.
pub open spec fn eq_ic(a: Seq<char>, b: Seq<char>) -> bool {
    a.len() == b.len() && forall|i: int| 0 <= i < a.len() ==> lower(#[trigger] a[i]) == lower(b[i])
}

pub fn eq_ignore_case(a: &Vec<char>, b: &Vec<char>) -> (r: bool)
    ensures
        r == eq_ic(a@, b@),
{
    if a.len() != b.len() {
        return false;
    }
    let mut i: usize = 0;
    while i < a.len()
        invariant
            a.len() == b.len(),
            i <= a.len(),
            forall|j: int| 0 <= j < i ==> lower(#[trigger] a@[j]) == lower(b@[j]),
        decreases a.len() - i,
    {
        if lower_char(a[i]) != lower_char(b[i]) {
            return false;
        }
        i += 1;
    }
    true
}

/// Two keywords that differ after ASCII lower-casing are never matched by
/// the same word.
pub proof fn lemma_eq_ic_exclusive(k: Seq<char>, a: Seq<char>, b: Seq<char>, i: int)
    requires
        eq_ic(k, a),
        0 <= i < a.len(),
        i < b.len(),
        lower(a[i]) != lower(b[i]),
    ensures
        !eq_ic(k, b),
{
    if eq_ic(k, b) {
        assert(lower(k[i]) == lower(a[i]));
        assert(lower(k[i]) == lower(b[i]));
    }
}

pub proof fn lemma_eq_ic_len(k: Seq<char>, a: Seq<char>, b: Seq<char>)
    requires
        eq_ic(k, a),
        a.len() != b.len(),
    ensures
        !eq_ic(k, b),
{
}

pub proof fn lemma_eq_ic_trans(a: Seq<char>, b: Seq<char>, c: Seq<char>)
    requires
        eq_ic(a, b),
        eq_ic(b, c),
    ensures
        eq_ic(a, c),
{
    assert forall|i: int| 0 <= i < a.len() implies lower(#[trigger] a[i]) == lower(c[i]) by {
        assert(lower(a[i]) == lower(b[i]));
        assert(lower(b[i]) == lower(c[i]));
    }
}

pub proof fn lemma_eq_ic_sym(a: Seq<char>, b: Seq<char>)
    requires
        eq_ic(a, b),
    ensures
        eq_ic(b, a),
{
    assert forall|i: int| 0 <= i < b.len() implies lower(#[trigger] b[i]) == lower(a[i]) by {
        assert(lower(a[i]) == lower(b[i]));
    }
}

pub proof fn lemma_eq_ic_refl(a: Seq<char>)
    ensures
        eq_ic(a, a),
{
}

// ---------------------------------------------------------------------------
// Lines
// ---------------------------------------------------------------------------
/// A line without its trailing `\r` (only a `\r` directly before `\n` is a
/// line-ending character).
pub open spec fn strip_cr(l: Seq<char>) -> Seq<char> {
    if l.len() > 0 && l.last() == '\r' {
        l.drop_last()
    } else {
        l
    }
}

/// `s.lines()`: split at `\n`, dropping a `\r` right before each `\n`; a
/// final line terminator does not produce an empty last line.
pub open spec fn lines(s: Seq<char>) -> Seq<Seq<char>>
    decreases s.len(),
{
    if s.len() == 0 {
        seq![]
    } else {
        match index_of(s, '\n') {
            None => seq![s],
            Some(k) => {
                proof {
                    lemma_index_of(s, '\n');
                }
                seq![strip_cr(s.take(k))] + lines(s.skip(k + 1))
            },
        }
    }
}

/// Whether the text ends with a line terminator.
pub open spec fn ends_with_newline(s: Seq<char>) -> bool {
    s.len() > 0 && s.last() == '\n'
}

/// Split a text into its lines (`str::lines`).
pub fn split_lines(s: &Vec<char>) -> (r: Vec<Vec<char>>)
    ensures
        r@.map_values(|l: Vec<char>| l@) == lines(s@),
{
    let mut r: Vec<Vec<char>> = Vec::new();
    let mut start: usize = 0;
    let mut i: usize = 0;
    assert(s@.skip(0) =~= s@);
    while i < s.len()
        invariant
            start <= i <= s.len(),
            forall|j: int| start <= j < i ==> s@[j] != '\n',
            r@.map_values(|l: Vec<char>| l@) + lines(s@.skip(start as int)) == lines(s@),
        decreases s.len() - i,
    {
        if s[i] == '\n' {
            let ghost rest = s@.skip(start as int);
            proof {
                assert forall|j: int| 0 <= j < i - start implies rest[j] != '\n' by {
                    assert(rest[j] == s@[j + start]);
                }
                assert(rest[i - start] == s@[i as int]);
                lemma_index_of_at(rest, '\n', i - start);
                assert(rest.skip(i - start + 1) =~= s@.skip(i + 1));
                assert(rest.take(i - start) =~= s@.subrange(start as int, i as int));
            }
            let mut end = i;
            if end > start && s[end - 1] == '\r' {
                end -= 1;
            }
            let line = slice_of(s, start, end);
            assert(line@ =~= strip_cr(s@.subrange(start as int, i as int)));
            let ghost before = r@;
            r.push(line);
            assert(r@.map_values(|l: Vec<char>| l@) =~= before.map_values(|l: Vec<char>| l@).push(
                line@,
            ));
            assert(lines(rest) =~= seq![line@] + lines(s@.skip(i + 1)));
            i += 1;
            start = i;
        } else {
            i += 1;
        }
    }
    let ghost rest = s@.skip(start as int);
    if start < s.len() {
        proof {
            assert forall|j: int| 0 <= j < rest.len() implies rest[j] != '\n' by {
                assert(rest[j] == s@[j + start]);
            }
            lemma_index_of_at(rest, '\n', rest.len() as int);
        }
        let line = slice_of(s, start, s.len());
        let ghost before = r@;
        r.push(line);
        assert(line@ =~= rest);
        assert(r@.map_values(|l: Vec<char>| l@) =~= before.map_values(|l: Vec<char>| l@).push(
            line@,
        ));
        assert(lines(rest) =~= seq![rest]);
    } else {
        assert(rest =~= Seq::<char>::empty());
    }
    r
}

/// The raw lines of a text: split at `\n`, keeping every other character
/// (`\r` included); a final line terminator does not produce an empty last
/// line.
pub open spec fn raw_lines(s: Seq<char>) -> Seq<Seq<char>>
    decreases s.len(),
{
    if s.len() == 0 {
        seq![]
    } else {
        match index_of(s, '\n') {
            None => seq![s],
            Some(k) => {
                proof {
                    lemma_index_of(s, '\n');
                }
                seq![s.take(k)] + raw_lines(s.skip(k + 1))
            },
        }
    }
}

/// Split a text into its raw lines: at each `\n`, keeping every other
/// character, `\r` included.
pub fn split_raw_lines(s: &Vec<char>) -> (r: Vec<Vec<char>>)
    ensures
        r@.map_values(|l: Vec<char>| l@) == raw_lines(s@),
{
    let mut r: Vec<Vec<char>> = Vec::new();
    let mut start: usize = 0;
    let mut i: usize = 0;
    assert(s@.skip(0) =~= s@);
    while i < s.len()
        invariant
            start <= i <= s.len(),
            forall|j: int| start <= j < i ==> s@[j] != '\n',
            r@.map_values(|l: Vec<char>| l@) + raw_lines(s@.skip(start as int)) == raw_lines(s@),
        decreases s.len() - i,
    {
        if s[i] == '\n' {
            let ghost rest = s@.skip(start as int);
            proof {
                assert forall|j: int| 0 <= j < i - start implies rest[j] != '\n' by {
                    assert(rest[j] == s@[j + start]);
                }
                assert(rest[i - start] == s@[i as int]);
                lemma_index_of_at(rest, '\n', i - start);
                assert(rest.skip(i - start + 1) =~= s@.skip(i + 1));
                assert(rest.take(i - start) =~= s@.subrange(start as int, i as int));
            }
            let line = slice_of(s, start, i);
            assert(line@ =~= s@.subrange(start as int, i as int));
            let ghost before = r@;
            r.push(line);
            assert(r@.map_values(|l: Vec<char>| l@) =~= before.map_values(|l: Vec<char>| l@).push(
                line@,
            ));
            assert(raw_lines(rest) =~= seq![line@] + raw_lines(s@.skip(i + 1)));
            i += 1;
            start = i;
        } else {
            i += 1;
        }
    }
    let ghost rest = s@.skip(start as int);
    if start < s.len() {
        proof {
            assert forall|j: int| 0 <= j < rest.len() implies rest[j] != '\n' by {
                assert(rest[j] == s@[j + start]);
            }
            lemma_index_of_at(rest, '\n', rest.len() as int);
        }
        let line = slice_of(s, start, s.len());
        let ghost before = r@;
        r.push(line);
        assert(line@ =~= rest);
        assert(r@.map_values(|l: Vec<char>| l@) =~= before.map_values(|l: Vec<char>| l@).push(
            line@,
        ));
        assert(raw_lines(rest) =~= seq![rest]);
    } else {
        assert(rest =~= Seq::<char>::empty());
    }
    r
}

// ---------------------------------------------------------------------------
// Decimal numbers
// ---------------------------------------------------------------------------
pub open spec fn is_digit(c: char) -> bool {
    '0' <= c && c <= '9'
}

pub open spec fn digit_val(c: char) -> nat {
    ((c as u32) - ('0' as u32)) as nat
}

pub open spec fn all_digits(s: Seq<char>) -> bool {
    forall|i: int| 0 <= i < s.len() ==> is_digit(#[trigger] s[i])
}

/// The value of a digit string, most significant digit first.
pub open spec fn dec_val(s: Seq<char>) -> nat
    decreases s.len(),
{
    if s.len() == 0 {
        0
    } else {
        dec_val(s.drop_last()) * 10 + digit_val(s.last())
    }
}

/// The digits of an unsigned number: the text without one leading `+`.
pub open spec fn unsigned_digits(s: Seq<char>) -> Seq<char> {
    if s.len() > 0 && s[0] == '+' {
        s.drop_first()
    } else {
        s
    }
}

/// `s.parse::<u16>().ok()`: an optional `+` sign followed by at least one
/// ASCII digit, with a value that fits in 16 bits.
pub open spec fn parse_u16(s: Seq<char>) -> Option<u16> {
    let d = unsigned_digits(s);
    if d.len() == 0 || !all_digits(d) || dec_val(d) > 65535 {
        None
    } else {
        Some(dec_val(d) as u16)
    }
}

pub proof fn lemma_dec_val_mono(s: Seq<char>, k: int)
    requires
        0 <= k <= s.len(),
        all_digits(s),
    ensures
        dec_val(s.take(k)) <= dec_val(s),
    decreases s.len() - k,
{
    if k < s.len() {
        lemma_dec_val_mono(s.drop_last(), k);
        assert(s.drop_last().take(k) =~= s.take(k));
    } else {
        assert(s.take(k) =~= s);
    }
}

/// Parse a `u16` the way `str::parse::<u16>` does.
pub fn parse_u16_chars(s: &Vec<char>) -> (r: Option<u16>)
    ensures
        r == parse_u16(s@),
{
    let mut i: usize = 0;
    if s.len() > 0 && s[0] == '+' {
        i = 1;
    }
    let ghost d = unsigned_digits(s@);
    assert(d =~= s@.skip(i as int));
    if i >= s.len() {
        return None;
    }
    let start = i;
    let mut acc: u32 = 0;
    while i < s.len()
        invariant
            start <= i <= s.len(),
            d == unsigned_digits(s@),
            d == s@.skip(start as int),
            all_digits(d.take(i - start)),
            acc == dec_val(d.take(i - start)),
            acc <= 65535,
        decreases s.len() - i,
    {
        let c = s[i];
        assert(d[i - start] == c);
        if !('0' <= c && c <= '9') {
            assert(!is_digit(d[i - start]));
            assert(!all_digits(d));
            assert(parse_u16(s@) is None);
            return None;
        }
        proof {
            assert(d.take(i - start + 1).drop_last() =~= d.take(i - start));
            assert(d.take(i - start + 1).last() == c);
            assert forall|j: int| 0 <= j < i - start + 1 implies is_digit(
                #[trigger] d.take(i - start + 1)[j],
            ) by {
                if j < i - start {
                    assert(d.take(i - start + 1)[j] == d.take(i - start)[j]);
                }
            }
        }
        acc = acc * 10 + ((c as u32) - ('0' as u32));
        i += 1;
        assert(acc == dec_val(d.take(i - start)));
        if acc > 65535 {
            proof {
                if all_digits(d) {
                    lemma_dec_val_mono(d, i - start);
                    assert(dec_val(d) > 65535);
                }
                assert(parse_u16(s@) is None);
            }
            return None;
        }
    }
    assert(d.take(i - start) =~= d);
    Some(acc as u16)
}

pub open spec fn digit_char(n: nat) -> char {
    ((n + ('0' as u32)) as u32) as char
}

/// Decimal rendering of a number (`u16::to_string`).
pub open spec fn dec_str(n: nat) -> Seq<char>
    decreases n,
{
    if n < 10 {
        seq![digit_char(n)]
    } else {
        dec_str(n / 10).push(digit_char(n % 10))
    }
}

pub proof fn lemma_digit_char(k: nat)
    requires
        k < 10,
    ensures
        is_digit(digit_char(k)),
        digit_val(digit_char(k)) == k,
{
    assert(((k + ('0' as u32)) as u32) as char as u32 == k + 48);
}

pub proof fn lemma_dec_str(n: nat)
    ensures
        dec_str(n).len() >= 1,
        all_digits(dec_str(n)),
        dec_val(dec_str(n)) == n,
        dec_str(n)[0] != '+',
        forall|i: int| 0 <= i < dec_str(n).len() ==> !is_ws(#[trigger] dec_str(n)[i]) && dec_str(
            n,
        )[i] != ':',
    decreases n,
{
    lemma_digit_char(n % 10);
    if n < 10 {
        assert(dec_str(n).drop_last() =~= Seq::<char>::empty());
        assert(dec_val(Seq::<char>::empty()) == 0);
        assert(dec_str(n).last() == digit_char(n));
        assert(n % 10 == n);
        assert(dec_val(dec_str(n)) == n);
    }
    if n >= 10 {
        lemma_dec_str(n / 10);
        vstd::arithmetic::div_mod::lemma_fundamental_div_mod(n as int, 10);
        let s = dec_str(n);
        assert(s.drop_last() =~= dec_str(n / 10));
        assert forall|i: int| 0 <= i < s.len() implies is_digit(#[trigger] s[i]) by {
            if i < s.len() - 1 {
                assert(s[i] == dec_str(n / 10)[i]);
            }
        }
        assert(s[0] == dec_str(n / 10)[0]);
        assert(dec_val(s) == dec_val(dec_str(n / 10)) * 10 + digit_val(digit_char(n % 10)));
    }
}

/// The decimal rendering of a `u16` parses back to the same number.
pub proof fn lemma_parse_dec_str(n: u16)
    ensures
        parse_u16(dec_str(n as nat)) == Some(n),
{
    lemma_dec_str(n as nat);
    assert(unsigned_digits(dec_str(n as nat)) == dec_str(n as nat));
}

/// `n.to_string()` for a `u16`.
pub fn u16_to_chars(n: u16) -> (r: Vec<char>)
    ensures
        r@ == dec_str(n as nat),
    decreases n,
{
    if n < 10 {
        let c = ((n as u32) + ('0' as u32)) as u8 as char;
        assert(c == digit_char(n as nat));
        vec![c]
    } else {
        let mut r = u16_to_chars(n / 10);
        let c = (((n % 10) as u32) + ('0' as u32)) as u8 as char;
        assert(c == digit_char((n % 10) as nat));
        r.push(c);
        r
    }
}

// ---------------------------------------------------------------------------
// Conversions between `str`/`String` and `Vec<char>`
// ---------------------------------------------------------------------------
/// The characters of a string slice.
pub fn chars_of(s: &str) -> (v: Vec<char>)
    ensures
        v@ == s@,
{
    let mut v: Vec<char> = Vec::new();
    for c in it: s.chars()
        invariant
            v@ == it.seq().take(it.index() as int),
            it.seq() == s@,
    {
        v.push(c);
    }
    v
}

/// Append one character to a `String` (`String::push`).
#[verifier::external_body]
fn push_char(s: &mut String, c: char)
    ensures
        final(s)@ == old(s)@.push(c),
{
    s.push(c);
}

/// A `String` holding exactly the given characters.
pub fn string_of(v: &Vec<char>) -> (s: String)
    ensures
        s@ == v@,
{
    let mut s = String::new();
    let mut i: usize = 0;
    while i < v.len()
        invariant
            i <= v.len(),
            s@ == v@.take(i as int),
        decreases v.len() - i,
    {
        push_char(&mut s, v[i]);
        i += 1;
        assert(s@ =~= v@.take(i as int));
    }
    assert(v@.take(i as int) =~= v@);
    s
}

/// `a == b` on character vectors.
pub fn chars_eq(a: &Vec<char>, b: &Vec<char>) -> (r: bool)
    ensures
        r == (a@ == b@),
{
    if a.len() != b.len() {
        return false;
    }
    let mut i: usize = 0;
    while i < a.len()
        invariant
            a.len() == b.len(),
            i <= a.len(),
            forall|j: int| 0 <= j < i ==> a@[j] == b@[j],
        decreases a.len() - i,
    {
        if a[i] != b[i] {
            return false;
        }
        i += 1;
    }
    assert(a@ =~= b@);
    true
}

/// Position of the last occurrence of `c`.
pub open spec fn last_index_of(s: Seq<char>, c: char) -> Option<int>
    decreases s.len(),
{
    if s.len() == 0 {
        None
    } else if s.last() == c {
        Some(s.len() - 1)
    } else {
        last_index_of(s.drop_last(), c)
    }
}

pub proof fn lemma_last_index_of_at(s: Seq<char>, c: char, k: int)
    requires
        -1 <= k < s.len(),
        forall|j: int| k < j < s.len() ==> s[j] != c,
        k >= 0 ==> s[k] == c,
    ensures
        last_index_of(s, c) == (if k >= 0 {
            Some(k)
        } else {
            None::<int>
        }),
    decreases s.len(),
{
    if s.len() > 0 && k < s.len() - 1 {
        assert forall|j: int| k < j < s.len() - 1 implies s.drop_last()[j] != c by {
            assert(s.drop_last()[j] == s[j]);
        }
        if k >= 0 {
            assert(s.drop_last()[k] == s[k]);
        }
        lemma_last_index_of_at(s.drop_last(), c, k);
    }
}

/// `s.rfind(c)` counted in characters.
pub fn rfind_char(s: &Vec<char>, c: char) -> (r: Option<usize>)
    ensures
        r matches Some(k) ==> last_index_of(s@, c) == Some(k as int) && k < s.len(),
        r is None ==> last_index_of(s@, c) is None,
{
    let mut i: usize = s.len();
    while i > 0
        invariant
            i <= s.len(),
            forall|j: int| i <= j < s.len() ==> s@[j] != c,
        decreases i,
    {
        if s[i - 1] == c {
            proof {
                lemma_last_index_of_at(s@, c, i - 1);
            }
            return Some(i - 1);
        }
        i -= 1;
    }
    proof {
        lemma_last_index_of_at(s@, c, -1);
    }
    None
}

/// Append `b` to `a`.
pub fn extend(a: &mut Vec<char>, b: &Vec<char>)
    ensures
        final(a)@ == old(a)@ + b@,
{
    let mut c = b.clone();
    a.append(&mut c);
}

} // verus!

//! Character-level text helpers: whitespace, trimming, splitting and
//! building strings, each stated over `Seq<char>`.
use vstd::prelude::*;
use vstd::std_specs::iter::IteratorSpec;

verus! {

broadcast use vstd::string::group_string_axioms;

/// The characters of `s`, in order.
pub fn chars_of(s: &str) -> (v: Vec<char>)
    ensures
        v@ == s@,
{
    let mut v: Vec<char> = Vec::new();
    for c in it: s.chars()
        invariant
            it.seq() == s@,
            v@ == it.seq().take(it.index()),
    {
        v.push(c);
        assert(it.seq().take(it.index() + 1) == it.seq().take(it.index()).push(c));
    }
    assert(v@ =~= s@);
    v
}


/// Unicode `White_Space` characters, the set that `char::is_whitespace`,
/// `str::trim` and `str::split_whitespace` use.
pub open spec fn is_ws(c: char) -> bool {
    let u = c as u32;
    ||| 9 <= u <= 13
    ||| u == 32
    ||| u == 0x85
    ||| u == 0xa0
    ||| u == 0x1680
    ||| 0x2000 <= u <= 0x200a
    ||| u == 0x2028
    ||| u == 0x2029
    ||| u == 0x202f
    ||| u == 0x205f
    ||| u == 0x3000
}

/// `s` without its leading whitespace.
pub open spec fn trim_start(s: Seq<char>) -> Seq<char>
    decreases s.len(),
{
    if s.len() > 0 && is_ws(s[0]) {
        trim_start(s.drop_first())
    } else {
        s
    }
}

/// `s` without its trailing whitespace.
pub open spec fn trim_end(s: Seq<char>) -> Seq<char>
    decreases s.len(),
{
    if s.len() > 0 && is_ws(s.last()) {
        trim_end(s.drop_last())
    } else {
        s
    }
}

/// `s` without leading and trailing whitespace.
pub open spec fn trim(s: Seq<char>) -> Seq<char> {
    trim_end(trim_start(s))
}

proof fn lemma_trim_start_shape(s: Seq<char>)
    ensures
        ({
            let t = trim_start(s);
            let i = s.len() - t.len();
            &&& 0 <= i <= s.len()
            &&& t == s.skip(i)
            &&& forall|k: int| 0 <= k < i ==> is_ws(#[trigger] s[k])
            &&& t.len() > 0 ==> !is_ws(t[0])
        }),
    decreases s.len(),
{
    if s.len() > 0 && is_ws(s[0]) {
        lemma_trim_start_shape(s.drop_first());
        let t = trim_start(s);
        let i = s.len() - t.len();
        assert(s.drop_first().skip(i - 1) == s.skip(i));
        assert forall|k: int| 0 <= k < i implies is_ws(#[trigger] s[k]) by {
            if k > 0 {
                assert(s[k] == s.drop_first()[k - 1]);
            }
        }
    } else {
        assert(s.skip(0) == s);
    }
}

proof fn lemma_trim_end_shape(s: Seq<char>)
    ensures
        ({
            let t = trim_end(s);
            &&& t.len() <= s.len()
            &&& t == s.take(t.len() as int)
            &&& forall|k: int| t.len() <= k < s.len() ==> is_ws(#[trigger] s[k])
            &&& t.len() > 0 ==> !is_ws(t.last())
        }),
    decreases s.len(),
{
    if s.len() > 0 && is_ws(s.last()) {
        lemma_trim_end_shape(s.drop_last());
        let t = trim_end(s);
        assert(s.drop_last().take(t.len() as int) == s.take(t.len() as int));
        assert forall|k: int| t.len() <= k < s.len() implies is_ws(#[trigger] s[k]) by {
            if k < s.len() - 1 {
                assert(s[k] == s.drop_last()[k]);
            }
        }
    } else {
        assert(s.take(s.len() as int) == s);
    }
}

/// Trimming removes whitespace from both ends and nothing else: the result
/// is a run of `s` with only whitespace before and after it, and it neither
/// starts nor ends with whitespace.
pub proof fn law_trim_removes_only_outer_whitespace(s: Seq<char>)
    ensures
        exists|i: int| #![trigger s.subrange(i, i + trim(s).len())]
            0 <= i && i + trim(s).len() <= s.len() && s.subrange(i, i + trim(s).len()) == trim(s)
            && (forall|k: int| 0 <= k < i ==> is_ws(#[trigger] s[k]))
            && (forall|k: int| i + trim(s).len() <= k < s.len() ==> is_ws(#[trigger] s[k])),
        trim(s).len() > 0 ==> !is_ws(trim(s)[0]) && !is_ws(trim(s).last()),
{
    lemma_trim_start_shape(s);
    let u = trim_start(s);
    let i = s.len() - u.len();
    lemma_trim_end_shape(u);
    let t = trim(s);
    assert(t == u.take(t.len() as int));
    assert(s.subrange(i, i + t.len()) == t);
    assert forall|k: int| i + t.len() <= k < s.len() implies is_ws(#[trigger] s[k]) by {
        assert(s[k] == u[k - i]);
    }
    if t.len() > 0 {
        assert(t[0] == u[0]);
    }
}

/// `s` without any of its leading `c` characters.
pub open spec fn strip_start(s: Seq<char>, c: char) -> Seq<char>
    decreases s.len(),
{
    if s.len() > 0 && s[0] == c {
        strip_start(s.drop_first(), c)
    } else {
        s
    }
}

/// `s` without any of its trailing `c` characters.
pub open spec fn strip_end(s: Seq<char>, c: char) -> Seq<char>
    decreases s.len(),
{
    if s.len() > 0 && s.last() == c {
        strip_end(s.drop_last(), c)
    } else {
        s
    }
}

/// The fields of `s` separated by `c`, empty ones included: a text without
/// `c` is one field, and each `c` starts a new one.
pub open spec fn split_on(s: Seq<char>, c: char) -> Seq<Seq<char>>
    decreases s.len(),
{
    if s.len() == 0 {
        seq![Seq::<char>::empty()]
    } else {
        let f = split_on(s.drop_last(), c);
        if s.last() == c {
            f.push(Seq::<char>::empty())
        } else {
            f.update(f.len() - 1, f.last().push(s.last()))
        }
    }
}

/// The maximal runs of non-whitespace characters of `s`, in order.
pub open spec fn words(s: Seq<char>) -> Seq<Seq<char>>
    decreases s.len(),
{
    if s.len() == 0 {
        Seq::<Seq<char>>::empty()
    } else {
        let w = words(s.drop_last());
        let c = s.last();
        if is_ws(c) {
            w
        } else if s.len() >= 2 && !is_ws(s[s.len() - 2]) {
            w.update(w.len() - 1, w.last().push(c))
        } else {
            w.push(seq![c])
        }
    }
}

/// The texts of `ws` joined by single spaces.
pub open spec fn join_spaced(ws: Seq<Seq<char>>) -> Seq<char>
    decreases ws.len(),
{
    if ws.len() == 0 {
        Seq::<char>::empty()
    } else if ws.len() == 1 {
        ws[0]
    } else {
        join_spaced(ws.drop_last()) + seq![' '] + ws.last()
    }
}

/// `s` with every `c` removed.
pub open spec fn remove_char(s: Seq<char>, c: char) -> Seq<char>
    decreases s.len(),
{
    if s.len() == 0 {
        s
    } else {
        let r = remove_char(s.drop_last(), c);
        if s.last() == c {
            r
        } else {
            r.push(s.last())
        }
    }
}

/// Position of the first `c` in `s`, if any.
pub open spec fn find_first(s: Seq<char>, c: char) -> Option<int>
    decreases s.len(),
{
    if s.len() == 0 {
        None
    } else {
        match find_first(s.drop_last(), c) {
            Some(i) => Some(i),
            None => if s.last() == c {
                Some(s.len() - 1)
            } else {
                None
            },
        }
    }
}

/// Decimal digit `d` (0..10) as a character.
pub open spec fn digit_char(d: int) -> char {
    hex_char(d)
}

/// Decimal notation of `n`, without leading zeros.
pub open spec fn decimal(n: nat) -> Seq<char>
    decreases n,
{
    if n < 10 {
        seq![digit_char(n as int)]
    } else {
        decimal(n / 10).push(digit_char((n % 10) as int))
    }
}

/// The texts that the ranges `rs` select from `cs`.
pub open spec fn pieces(cs: Seq<char>, rs: Seq<(usize, usize)>) -> Seq<Seq<char>> {
    Seq::new(rs.len(), |i: int| cs.subrange(rs[i].0 as int, rs[i].1 as int))
}

/// Ranges that all lie within `lo..hi` of a text of length `n`.
pub open spec fn ranges_within(rs: Seq<(usize, usize)>, lo: int, hi: int) -> bool {
    forall|i: int| 0 <= i < rs.len() ==> lo <= #[trigger] rs[i].0 <= rs[i].1 <= hi
}

/// Whether `c` is whitespace (Unicode `White_Space`).
pub fn is_whitespace(c: char) -> (b: bool)
    ensures
        b == is_ws(c),
{
    let u = c as u32;
    (9 <= u && u <= 13) || u == 32 || u == 0x85 || u == 0xa0 || u == 0x1680 || (0x2000 <= u && u
        <= 0x200a) || u == 0x2028 || u == 0x2029 || u == 0x202f || u == 0x205f || u == 0x3000
}

/// Appends `c` to `s` (`String::push`).
#[verifier::external_body]
pub(crate) fn push_char(s: &mut String, c: char)
    ensures
        final(s)@ == old(s)@.push(c),
{
    s.push(c);
}

/// Appends the characters `cs[lo..hi]` to `out`.
pub fn push_range(out: &mut String, cs: &Vec<char>, lo: usize, hi: usize)
    requires
        lo <= hi <= cs.len(),
    ensures
        final(out)@ == old(out)@ + cs@.subrange(lo as int, hi as int),
{
    let mut i = lo;
    while i < hi
        invariant
            lo <= i <= hi <= cs.len(),
            out@ == old(out)@ + cs@.subrange(lo as int, i as int),
        decreases hi - i,
    {
        push_char(out, cs[i]);
        assert(cs@.subrange(lo as int, i + 1) == cs@.subrange(lo as int, i as int).push(cs@[i as int]));
        i = i + 1;
    }
}

/// Appends `s` to `out`.
pub fn push_str(out: &mut String, s: &str)
    ensures
        final(out)@ == old(out)@ + s@,
{
    let cs = chars_of(s);
    push_range(out, &cs, 0, cs.len());
    assert(cs@.subrange(0, cs@.len() as int) == cs@);
}

/// `needle` occurs in `hay` as a run of consecutive characters.
pub open spec fn has_sub(hay: Seq<char>, needle: Seq<char>) -> bool {
    exists|i: int| 0 <= i && i + needle.len() <= hay.len() && #[trigger] hay.subrange(i, i + needle.len()) == needle
}

/// Whether `needle` occurs in `hay` (as `str::contains` with a `&str` pattern).
pub fn contains(hay: &Vec<char>, needle: &str) -> (b: bool)
    ensures
        b == has_sub(hay@, needle@),
{
    let m = chars_of(needle).len();
    let n = hay.len();
    if m > n {
        return false;
    }
    let mut i: usize = 0;
    loop
        invariant_except_break
            i <= n - m,
            forall|k: int| 0 <= k < i ==> #[trigger] hay@.subrange(k, k + m) != needle@,
        invariant
            m == needle@.len(),
            n == hay.len(),
            m <= n,
        ensures
            forall|k: int| 0 <= k <= n - m ==> #[trigger] hay@.subrange(k, k + m) != needle@,
        decreases n - m - i,
    {
        if range_eq(hay, i, i + m, needle) {
            return true;
        }
        if i == n - m {
            break;
        }
        i = i + 1;
    }
    false
}

/// Whether the characters `cs[lo..hi]` spell `lit`.
pub fn range_eq(cs: &Vec<char>, lo: usize, hi: usize, lit: &str) -> (b: bool)
    requires
        lo <= hi <= cs.len(),
    ensures
        b == (cs@.subrange(lo as int, hi as int) == lit@),
{
    let lc = chars_of(lit);
    if hi - lo != lc.len() {
        assert(cs@.subrange(lo as int, hi as int).len() != lit@.len());
        return false;
    }
    let mut i: usize = 0;
    while i < lc.len()
        invariant
            lo <= hi <= cs.len(),
            hi - lo == lc.len(),
            lc@ == lit@,
            i <= lc.len(),
            forall|j: int| 0 <= j < i ==> cs@[lo + j] == lc@[j],
        decreases lc.len() - i,
    {
        if cs[lo + i] != lc[i] {
            assert(cs@.subrange(lo as int, hi as int)[i as int] != lit@[i as int]);
            return false;
        }
        i = i + 1;
    }
    assert(cs@.subrange(lo as int, hi as int) =~= lit@);
    true
}

/// The characters `cs[lo..hi]` as a `String`.
pub fn string_of(cs: &Vec<char>, lo: usize, hi: usize) -> (s: String)
    requires
        lo <= hi <= cs.len(),
    ensures
        s@ == cs@.subrange(lo as int, hi as int),
{
    let mut s = String::new();
    push_range(&mut s, cs, lo, hi);
    s
}

/// Bounds of the text `cs[lo..hi]` with leading and trailing whitespace removed.
pub fn trim_range(cs: &Vec<char>, lo: usize, hi: usize) -> (r: (usize, usize))
    requires
        lo <= hi <= cs.len(),
    ensures
        lo <= r.0 <= r.1 <= hi,
        cs@.subrange(r.0 as int, r.1 as int) == trim(cs@.subrange(lo as int, hi as int)),
{
    let mut a = lo;
    while a < hi && is_whitespace(cs[a])
        invariant
            lo <= a <= hi <= cs.len(),
            trim_start(cs@.subrange(lo as int, hi as int)) == trim_start(cs@.subrange(a as int, hi as int)),
        decreases hi - a,
    {
        assert(cs@.subrange(a as int, hi as int).drop_first() == cs@.subrange(a + 1, hi as int));
        a = a + 1;
    }
    let mut b = hi;
    while b > a && is_whitespace(cs[b - 1])
        invariant
            lo <= a <= b <= hi <= cs.len(),
            trim_start(cs@.subrange(lo as int, hi as int)) == cs@.subrange(a as int, hi as int),
            trim_end(cs@.subrange(a as int, hi as int)) == trim_end(cs@.subrange(a as int, b as int)),
        decreases b - a,
    {
        assert(cs@.subrange(a as int, b as int).drop_last() == cs@.subrange(a as int, b - 1));
        b = b - 1;
    }
    (a, b)
}

/// Bounds of `cs[lo..hi]` without its leading `c` characters.
pub fn strip_start_range(cs: &Vec<char>, lo: usize, hi: usize, c: char) -> (r: usize)
    requires
        lo <= hi <= cs.len(),
    ensures
        lo <= r <= hi,
        cs@.subrange(r as int, hi as int) == strip_start(cs@.subrange(lo as int, hi as int), c),
{
    let mut a = lo;
    while a < hi && cs[a] == c
        invariant
            lo <= a <= hi <= cs.len(),
            strip_start(cs@.subrange(lo as int, hi as int), c) == strip_start(cs@.subrange(a as int, hi as int), c),
        decreases hi - a,
    {
        assert(cs@.subrange(a as int, hi as int).drop_first() == cs@.subrange(a + 1, hi as int));
        a = a + 1;
    }
    a
}

/// Bounds of `cs[lo..hi]` without its trailing `c` characters.
pub fn strip_end_range(cs: &Vec<char>, lo: usize, hi: usize, c: char) -> (r: usize)
    requires
        lo <= hi <= cs.len(),
    ensures
        lo <= r <= hi,
        cs@.subrange(lo as int, r as int) == strip_end(cs@.subrange(lo as int, hi as int), c),
{
    let mut b = hi;
    while b > lo && cs[b - 1] == c
        invariant
            lo <= b <= hi <= cs.len(),
            strip_end(cs@.subrange(lo as int, hi as int), c) == strip_end(cs@.subrange(lo as int, b as int), c),
        decreases b - lo,
    {
        assert(cs@.subrange(lo as int, b as int).drop_last() == cs@.subrange(lo as int, b - 1));
        b = b - 1;
    }
    b
}

/// Ranges of the fields of `cs[lo..hi]` separated by `c`.
pub fn split_ranges(cs: &Vec<char>, lo: usize, hi: usize, c: char) -> (rs: Vec<(usize, usize)>)
    requires
        lo <= hi <= cs.len(),
    ensures
        ranges_within(rs@, lo as int, hi as int),
        pieces(cs@, rs@) == split_on(cs@.subrange(lo as int, hi as int), c),
{
    let mut rs: Vec<(usize, usize)> = Vec::new();
    let mut start = lo;
    let mut i = lo;
    assert(cs@.subrange(lo as int, lo as int) == Seq::<char>::empty());
    assert(pieces(cs@, rs@).push(cs@.subrange(start as int, i as int)) == split_on(cs@.subrange(lo as int, i as int), c));
    while i < hi
        invariant
            lo <= start <= i <= hi <= cs.len(),
            ranges_within(rs@, lo as int, i as int),
            pieces(cs@, rs@).push(cs@.subrange(start as int, i as int)) == split_on(cs@.subrange(lo as int, i as int), c),
        decreases hi - i,
    {
        let ghost prev = pieces(cs@, rs@);
        let ghost sub = cs@.subrange(lo as int, i + 1);
        assert(sub.drop_last() == cs@.subrange(lo as int, i as int));
        assert(sub.last() == cs@[i as int]);
        if cs[i] == c {
            rs.push((start, i));
            assert(pieces(cs@, rs@) == prev.push(cs@.subrange(start as int, i as int)));
            start = i + 1;
            assert(cs@.subrange(start as int, i + 1) == Seq::<char>::empty());
        } else {
            assert(cs@.subrange(start as int, i + 1) == cs@.subrange(start as int, i as int).push(cs@[i as int]));
        }
        i = i + 1;
    }
    rs.push((start, hi));
    assert(pieces(cs@, rs@) == split_on(cs@.subrange(lo as int, hi as int), c));
    rs
}

/// Ranges of the words (maximal non-whitespace runs) of `cs[lo..hi]`.
pub fn word_ranges(cs: &Vec<char>, lo: usize, hi: usize) -> (rs: Vec<(usize, usize)>)
    requires
        lo <= hi <= cs.len(),
    ensures
        ranges_within(rs@, lo as int, hi as int),
        pieces(cs@, rs@) == words(cs@.subrange(lo as int, hi as int)),
{
    let mut rs: Vec<(usize, usize)> = Vec::new();
    let mut i = lo;
    assert(cs@.subrange(lo as int, lo as int) == Seq::<char>::empty());
    while i < hi
        invariant
            lo <= i <= hi <= cs.len(),
            ranges_within(rs@, lo as int, i as int),
            pieces(cs@, rs@) == words(cs@.subrange(lo as int, i as int)),
            i > lo && !is_ws(cs@[i - 1]) ==> rs.len() > 0 && rs@.last().1 == i,
            i > lo && is_ws(cs@[i - 1]) ==> rs.len() == 0 || rs@.last().1 < i,
            i == lo ==> rs.len() == 0,
        decreases hi - i,
    {
        let ghost prev = pieces(cs@, rs@);
        let ghost sub = cs@.subrange(lo as int, i + 1);
        assert(sub.drop_last() == cs@.subrange(lo as int, i as int));
        assert(sub.last() == cs@[i as int]);
        let c = cs[i];
        if is_whitespace(c) {
        } else if i > lo && !is_whitespace(cs[i - 1]) {
            assert(sub[sub.len() - 2] == cs@[i - 1]);
            let last = rs.len() - 1;
            let (a, _) = rs[last];
            rs.set(last, (a, i + 1));
            assert(cs@.subrange(a as int, i + 1) == cs@.subrange(a as int, i as int).push(c));
            assert(pieces(cs@, rs@) == prev.update(prev.len() - 1, prev.last().push(c)));
        } else {
            if i > lo {
                assert(sub[sub.len() - 2] == cs@[i - 1]);
            }
            rs.push((i, i + 1));
            assert(cs@.subrange(i as int, i + 1) == seq![c]);
            assert(pieces(cs@, rs@) == prev.push(seq![c]));
        }
        i = i + 1;
    }
    rs
}

/// Position of the first `c` in `cs[lo..hi]`, counted from `lo`.
pub fn find_char(cs: &Vec<char>, lo: usize, hi: usize, c: char) -> (r: Option<usize>)
    requires
        lo <= hi <= cs.len(),
    ensures
        match r {
            Some(i) => find_first(cs@.subrange(lo as int, hi as int), c) == Some(i as int) && lo + i < hi
                && cs@[lo + i] == c,
            None => find_first(cs@.subrange(lo as int, hi as int), c) is None,
        },
{
    let mut i = lo;
    while i < hi
        invariant
            lo <= i <= hi <= cs.len(),
            find_first(cs@.subrange(lo as int, i as int), c) is None,
        decreases hi - i,
    {
        let ghost sub = cs@.subrange(lo as int, i + 1);
        assert(sub.drop_last() == cs@.subrange(lo as int, i as int));
        if cs[i] == c {
            assert(find_first(sub, c) == Some(i - lo));
            proof {
                lemma_find_first_prefix(cs@.subrange(lo as int, hi as int), (i + 1 - lo) as nat, c);
                assert(cs@.subrange(lo as int, hi as int).take(i + 1 - lo) == sub);
            }
            return Some(i - lo);
        }
        i = i + 1;
    }
    None
}

/// A first occurrence found in a prefix is the first occurrence in the whole text.
pub proof fn lemma_find_first_prefix(s: Seq<char>, n: nat, c: char)
    requires
        n <= s.len(),
        find_first(s.take(n as int), c) is Some,
    ensures
        find_first(s, c) == find_first(s.take(n as int), c),
    decreases s.len() - n,
{
    if n < s.len() {
        assert(s.take((n + 1) as int).drop_last() == s.take(n as int));
        lemma_find_first_prefix(s, n + 1, c);
    } else {
        assert(s.take(n as int) == s);
    }
}

/// The first `c` found is a `c`, and no earlier character is one.
pub proof fn lemma_find_first_found(s: Seq<char>, c: char)
    ensures
        find_first(s, c) matches Some(i) ==> 0 <= i < s.len() && s[i] == c
            && forall|k: int| 0 <= k < i ==> s[k] != c,
        find_first(s, c) is None ==> forall|k: int| 0 <= k < s.len() ==> s[k] != c,
    decreases s.len(),
{
    if s.len() > 0 {
        let q = s.drop_last();
        lemma_find_first_found(q, c);
        assert forall|k: int| 0 <= k < s.len() - 1 implies s[k] == q[k] by {}
    }
}

/// A text without `c` has no first `c`.
pub proof fn lemma_find_first_absent(s: Seq<char>, c: char)
    requires
        forall|j: int| 0 <= j < s.len() ==> s[j] != c,
    ensures
        find_first(s, c) is None,
    decreases s.len(),
{
    if s.len() > 0 {
        lemma_find_first_absent(s.drop_last(), c);
    }
}

/// The first `c` of `s` is at `i` when `s[i]` is `c` and no earlier
/// character is.
pub proof fn lemma_find_first_at(s: Seq<char>, c: char, i: int)
    requires
        0 <= i < s.len(),
        s[i] == c,
        forall|j: int| 0 <= j < i ==> s[j] != c,
    ensures
        find_first(s, c) == Some(i),
    decreases s.len(),
{
    if i < s.len() - 1 {
        lemma_find_first_at(s.drop_last(), c, i);
    } else {
        lemma_find_first_absent(s.drop_last(), c);
    }
}

/// Trailing whitespace adds no word.
pub proof fn lemma_words_trailing_ws(x: Seq<char>, sp: Seq<char>)
    requires
        forall|k: int| 0 <= k < sp.len() ==> is_ws(#[trigger] sp[k]),
    ensures
        words(x + sp) == words(x),
    decreases sp.len(),
{
    if sp.len() == 0 {
        assert(x + sp == x);
    } else {
        assert((x + sp).drop_last() == x + sp.drop_last());
        assert((x + sp).last() == sp.last());
        lemma_words_trailing_ws(x, sp.drop_last());
    }
}

/// A run of non-whitespace after whitespace (or at the start) is one more word.
pub proof fn lemma_words_push_word(y: Seq<char>, w: Seq<char>)
    requires
        w.len() > 0,
        forall|k: int| 0 <= k < w.len() ==> !is_ws(#[trigger] w[k]),
        y.len() == 0 || is_ws(y.last()),
    ensures
        words(y + w) == words(y).push(w),
    decreases w.len(),
{
    let s = y + w;
    assert(s.drop_last() == y + w.drop_last());
    assert(s.last() == w.last());
    if w.len() == 1 {
        assert(y + w.drop_last() == y);
        assert(w == seq![w[0]]);
        if s.len() >= 2 {
            assert(s[s.len() - 2] == y.last());
        }
    } else {
        lemma_words_push_word(y, w.drop_last());
        assert(s[s.len() - 2] == w[w.len() - 2]);
        let p = words(y).push(w.drop_last());
        assert(p.last() == w.drop_last());
        assert(w.drop_last().push(w.last()) == w);
        assert(p.update(p.len() - 1, p.last().push(w.last())) == words(y).push(w));
    }
}

/// Trimming a text that one space precedes, and that starts and ends with
/// non-whitespace, gives the text.
pub proof fn lemma_trim_leading_space(u: Seq<char>)
    requires
        u.len() > 0,
        !is_ws(u[0]),
        !is_ws(u.last()),
    ensures
        trim(seq![' '] + u) == u,
{
    let s = seq![' '] + u;
    assert(s.drop_first() == u);
    assert(is_ws(s[0]));
    assert(trim_start(u) == u);
    assert(trim_start(s) == u);
    assert(trim_end(u) == u);
}

/// Splitting always gives at least one field.
pub proof fn lemma_split_on_nonempty(s: Seq<char>, c: char)
    ensures
        split_on(s, c).len() >= 1,
    decreases s.len(),
{
    if s.len() > 0 {
        lemma_split_on_nonempty(s.drop_last(), c);
    }
}

/// A text without the separator is one field.
pub proof fn lemma_split_on_none(x: Seq<char>, c: char)
    requires
        forall|k: int| 0 <= k < x.len() ==> #[trigger] x[k] != c,
    ensures
        split_on(x, c) == seq![x],
    decreases x.len(),
{
    if x.len() > 0 {
        lemma_split_on_none(x.drop_last(), c);
        assert(x.drop_last().push(x.last()) == x);
    } else {
        assert(x == Seq::<char>::empty());
    }
}

/// A field without the separator, then the separator, then the rest: the
/// field comes first, then the fields of the rest.
pub proof fn lemma_split_on_field(x: Seq<char>, y: Seq<char>, c: char)
    requires
        forall|k: int| 0 <= k < x.len() ==> #[trigger] x[k] != c,
    ensures
        split_on(x + seq![c] + y, c) == seq![x] + split_on(y, c),
    decreases y.len(),
{
    let s = x + seq![c] + y;
    if y.len() == 0 {
        assert(s.drop_last() == x);
        lemma_split_on_none(x, c);
        assert(s == x + seq![c]);
    } else {
        let yd = y.drop_last();
        lemma_split_on_field(x, yd, c);
        lemma_split_on_nonempty(yd, c);
        assert(s.drop_last() == x + seq![c] + yd);
        assert(s.last() == y.last());
        let a = split_on(yd, c);
        let l = seq![x] + a;
        if y.last() == c {
            assert(l.push(Seq::<char>::empty()) == seq![x] + a.push(Seq::<char>::empty()));
        } else {
            assert(l.last() == a.last());
            assert(l.update(l.len() - 1, l.last().push(y.last())) == seq![x] + a.update(a.len() - 1, a.last().push(y.last())));
        }
    }
}

/// Splitting two texts joined by the separator gives the fields of the
/// first, then those of the second.
pub proof fn lemma_split_on_concat(x: Seq<char>, y: Seq<char>, c: char)
    ensures
        split_on(x + seq![c] + y, c) == split_on(x, c) + split_on(y, c),
    decreases y.len(),
{
    let s = x + seq![c] + y;
    lemma_split_on_nonempty(x, c);
    if y.len() == 0 {
        assert(s.drop_last() == x);
        assert(s == x + seq![c]);
        assert(split_on(y, c) == seq![Seq::<char>::empty()]);
    } else {
        let yd = y.drop_last();
        lemma_split_on_concat(x, yd, c);
        lemma_split_on_nonempty(yd, c);
        assert(s.drop_last() == x + seq![c] + yd);
        assert(s.last() == y.last());
        let a = split_on(yd, c);
        let l = split_on(x, c) + a;
        if y.last() == c {
            assert(l.push(Seq::<char>::empty()) == split_on(x, c) + a.push(Seq::<char>::empty()));
        } else {
            assert(l.last() == a.last());
            assert(l.update(l.len() - 1, l.last().push(y.last())) == split_on(x, c) + a.update(a.len() - 1, a.last().push(y.last())));
        }
    }
}

/// Every field of a text holds only whitespace when the text does.
pub proof fn lemma_split_on_blank(s: Seq<char>, c: char)
    requires
        forall|k: int| 0 <= k < s.len() ==> is_ws(#[trigger] s[k]),
    ensures
        forall|i: int, k: int| 0 <= i < split_on(s, c).len() && 0 <= k < split_on(s, c)[i].len()
            ==> is_ws(#[trigger] split_on(s, c)[i][k]),
    decreases s.len(),
{
    if s.len() > 0 {
        lemma_split_on_blank(s.drop_last(), c);
        lemma_split_on_nonempty(s.drop_last(), c);
        let f = split_on(s.drop_last(), c);
        assert(is_ws(s.last()));
        if s.last() != c {
            let g = f.update(f.len() - 1, f.last().push(s.last()));
            assert forall|i: int, k: int| 0 <= i < g.len() && 0 <= k < g[i].len() implies is_ws(#[trigger] g[i][k]) by {
                if i == f.len() - 1 && k == f.last().len() {
                } else if i == f.len() - 1 {
                    assert(g[i][k] == f[i][k]);
                } else {
                    assert(g[i] == f[i]);
                }
            }
        }
    }
}

/// A text of whitespace trims to nothing.
pub proof fn lemma_trim_blank(s: Seq<char>)
    requires
        forall|k: int| 0 <= k < s.len() ==> is_ws(#[trigger] s[k]),
    ensures
        trim(s).len() == 0,
    decreases s.len(),
{
    if s.len() > 0 {
        lemma_trim_blank(s.drop_first());
        assert(trim_start(s) == trim_start(s.drop_first()));
    }
}

/// A leading space does not change what trimming gives.
pub proof fn lemma_trim_after_space(u: Seq<char>)
    ensures
        trim(seq![' '] + u) == trim(u),
{
    let s = seq![' '] + u;
    assert(s.drop_first() == u);
    assert(is_ws(s[0]));
}

/// Trimming a text that one space follows, and that starts and ends with
/// non-whitespace, gives the text.
pub proof fn lemma_trim_trailing_space(u: Seq<char>)
    requires
        u.len() > 0,
        !is_ws(u[0]),
        !is_ws(u.last()),
    ensures
        trim(u + seq![' ']) == u,
{
    let s = u + seq![' '];
    assert(s[0] == u[0]);
    assert(trim_start(s) == s);
    assert(s.drop_last() == u);
    assert(is_ws(s.last()));
    assert(trim_end(u) == u);
}

/// Trimming a text between two spaces, that starts and ends with
/// non-whitespace, gives the text.
pub proof fn lemma_trim_between_spaces(u: Seq<char>)
    requires
        u.len() > 0,
        !is_ws(u[0]),
        !is_ws(u.last()),
    ensures
        trim(seq![' '] + u + seq![' ']) == u,
{
    let s = seq![' '] + u + seq![' '];
    assert(s == seq![' '] + (u + seq![' ']));
    lemma_trim_after_space(u + seq![' ']);
    lemma_trim_trailing_space(u);
}

/// Appends the decimal notation of `n` to `out`.
pub fn push_decimal(out: &mut String, n: usize)
    ensures
        final(out)@ == old(out)@ + decimal(n as nat),
    decreases n,
{
    if n >= 10 {
        push_decimal(out, n / 10);
    }
    let c = hex_digit((n % 10) as u64);
    push_char(out, c);
}

/// Lower-case hexadecimal digit `d` (0..16) as a character.
pub open spec fn hex_char(d: int) -> char {
    if d < 10 {
        (48 + d) as char
    } else {
        (87 + d) as char
    }
}

/// The lower-case hexadecimal digit of `d`.
pub fn hex_digit(d: u64) -> (c: char)
    requires
        d < 16,
    ensures
        c == hex_char(d as int),
{
    match d {
        0 => '0',
        1 => '1',
        2 => '2',
        3 => '3',
        4 => '4',
        5 => '5',
        6 => '6',
        7 => '7',
        8 => '8',
        9 => '9',
        10 => 'a',
        11 => 'b',
        12 => 'c',
        13 => 'd',
        14 => 'e',
        _ => 'f',
    }
}

} // verus!

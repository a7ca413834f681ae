//! Character-sequence model shared by the parser and the serializer:
//! finding a character, splitting, trimming, line splitting, and an
//! association list of key/value pairs with last-write-wins insertion.

use vstd::prelude::*;

verus! {

/// The pairs of an association list, as the specs see them.
pub type StrPairs = Seq<(Seq<char>, Seq<char>)>;

/// Index of the first occurrence of `c` in `s`; `s.len()` if absent.
pub open spec fn first_idx(s: Seq<char>, c: char) -> nat
    decreases s.len(),
{
    if s.len() == 0 {
        0
    } else if s[0] == c {
        0
    } else {
        1 + first_idx(s.drop_first(), c)
    }
}

/// Whether `c` occurs in `s`.
pub open spec fn has_char(s: Seq<char>, c: char) -> bool {
    first_idx(s, c) < s.len()
}

/// `first_idx` is the unique index with nothing matching before it.
pub proof fn lemma_first_idx_is(s: Seq<char>, c: char, i: int)
    requires
        0 <= i <= s.len(),
        forall|j: int| 0 <= j < i ==> s[j] != c,
        i < s.len() ==> s[i] == c,
    ensures
        first_idx(s, c) == i,
    decreases s.len(),
{
    if s.len() == 0 {
    } else if s[0] == c {
        assert(i == 0);
    } else {
        assert(forall|j: int| 0 <= j < i - 1 ==> s.drop_first()[j] == s[j + 1]);
        assert(i >= 1);
        if i < s.len() {
            assert(s.drop_first()[i - 1] == s[i]);
        }
        lemma_first_idx_is(s.drop_first(), c, i - 1);
    }
}

/// Split `s` at every occurrence of `c`, as `str::split` does: the
/// result always has one more element than there are occurrences.
pub open spec fn split_all(s: Seq<char>, c: char) -> Seq<Seq<char>>
    decreases s.len(),
{
    let i = first_idx(s, c);
    if i >= s.len() {
        seq![s]
    } else {
        seq![s.take(i as int)] + split_all(s.skip(i + 1 as int), c)
    }
}

/// Whitespace as the trimmer understands it.
pub open spec fn is_wsp(c: char) -> bool {
    c == ' ' || c == '\t' || c == '\r' || c == '\n'
}

pub open spec fn trim_start_rec(s: Seq<char>) -> Seq<char>
    decreases s.len(),
{
    if s.len() > 0 && is_wsp(s[0]) {
        trim_start_rec(s.drop_first())
    } else {
        s
    }
}

pub open spec fn trim_end_rec(s: Seq<char>) -> Seq<char>
    decreases s.len(),
{
    if s.len() > 0 && is_wsp(s.last()) {
        trim_end_rec(s.drop_last())
    } else {
        s
    }
}

/// `s` with leading and trailing whitespace removed.
pub open spec fn spec_trim(s: Seq<char>) -> Seq<char> {
    trim_end_rec(trim_start_rec(s))
}

/// If the first `a` characters are whitespace and the next one is not,
/// trimming the front drops exactly those `a` characters.
pub proof fn lemma_trim_start_skip(s: Seq<char>, a: int)
    requires
        0 <= a <= s.len(),
        forall|j: int| 0 <= j < a ==> is_wsp(s[j]),
        a < s.len() ==> !is_wsp(s[a]),
    ensures
        trim_start_rec(s) == s.skip(a),
    decreases s.len(),
{
    if a == 0 {
        assert(s.skip(0) =~= s);
    } else {
        assert(forall|j: int| 0 <= j < a - 1 ==> s.drop_first()[j] == s[j + 1]);
        if a < s.len() {
            assert(s.drop_first()[a - 1] == s[a]);
        }
        lemma_trim_start_skip(s.drop_first(), a - 1);
        assert(s.drop_first().skip(a - 1) =~= s.skip(a));
    }
}

/// If everything from position `b` on is whitespace and the character
/// before `b` is not, trimming the back keeps exactly the first `b`.
pub proof fn lemma_trim_end_take(s: Seq<char>, b: int)
    requires
        0 <= b <= s.len(),
        forall|j: int| b <= j < s.len() ==> is_wsp(s[j]),
        b > 0 ==> !is_wsp(s[b - 1]),
    ensures
        trim_end_rec(s) == s.take(b),
    decreases s.len(),
{
    if b == s.len() {
        assert(s.take(b) =~= s);
    } else {
        assert(is_wsp(s.last()));
        assert(forall|j: int| 0 <= j < s.len() - 1 ==> s.drop_last()[j] == s[j]);
        lemma_trim_end_take(s.drop_last(), b);
        assert(s.drop_last().take(b) =~= s.take(b));
    }
}

/// One trailing carriage return removed, if present.
pub open spec fn strip_cr(l: Seq<char>) -> Seq<char> {
    if l.len() > 0 && l.last() == '\r' {
        l.drop_last()
    } else {
        l
    }
}

/// The lines of `s`: split at `'\n'`, one trailing `'\r'` stripped from
/// each line, and no empty final line for text ending in a newline.
pub open spec fn spec_lines(s: Seq<char>) -> Seq<Seq<char>> {
    if s.len() == 0 {
        Seq::empty()
    } else {
        let body = if s.last() == '\n' {
            s.drop_last()
        } else {
            s
        };
        split_all(body, '\n').map_values(|l: Seq<char>| strip_cr(l))
    }
}

/// Text with no newline forms a single line.
pub proof fn lemma_lines_single(s: Seq<char>)
    requires
        s.len() > 0,
        forall|j: int| 0 <= j < s.len() ==> s[j] != '\n',
    ensures
        spec_lines(s) == seq![strip_cr(s)],
{
    lemma_first_idx_is(s, '\n', s.len() as int);
    assert(split_all(s, '\n') == seq![s]);
    assert(split_all(s, '\n').map_values(|l: Seq<char>| strip_cr(l)) =~= seq![strip_cr(s)]);
}

/// Peeling the first line off a text: if the first newline of `s` sits
/// at `i`, the lines of `s` are the stripped prefix followed by the
/// lines of what comes after the newline.
pub proof fn lemma_lines_step(s: Seq<char>, i: int)
    requires
        0 <= i < s.len(),
        s[i] == '\n',
        forall|j: int| 0 <= j < i ==> s[j] != '\n',
    ensures
        spec_lines(s) == seq![strip_cr(s.take(i))] + spec_lines(s.skip(i + 1)),
{
    let f = |l: Seq<char>| strip_cr(l);
    if i == s.len() - 1 {
        let body = s.drop_last();
        assert(body =~= s.take(i));
        lemma_first_idx_is(body, '\n', body.len() as int);
        assert(split_all(body, '\n') == seq![body]);
        assert(split_all(body, '\n').map_values(f) =~= seq![strip_cr(s.take(i))]);
        assert(s.skip(i + 1) =~= Seq::<char>::empty());
        assert(spec_lines(s) =~= seq![strip_cr(s.take(i))] + spec_lines(s.skip(i + 1)));
    } else {
        let t = s.skip(i + 1);
        assert(t.len() > 0);
        assert(t.last() == s.last());
        if s.last() == '\n' {
            let body = s.drop_last();
            assert(forall|j: int| 0 <= j < i ==> body[j] == s[j]);
            assert(body[i] == s[i]);
            lemma_first_idx_is(body, '\n', i);
            assert(split_all(body, '\n') == seq![body.take(i)] + split_all(
                body.skip(i + 1),
                '\n',
            ));
            assert(body.take(i) =~= s.take(i));
            assert(t.drop_last() =~= body.skip(i + 1));
            assert(spec_lines(t) == split_all(body.skip(i + 1), '\n').map_values(f));
            assert((seq![body.take(i)] + split_all(body.skip(i + 1), '\n')).map_values(f)
                =~= seq![strip_cr(s.take(i))] + split_all(body.skip(i + 1), '\n').map_values(f));
        } else {
            lemma_first_idx_is(s, '\n', i);
            assert(split_all(s, '\n') == seq![s.take(i)] + split_all(s.skip(i + 1), '\n'));
            assert(spec_lines(t) == split_all(t, '\n').map_values(f));
            assert((seq![s.take(i)] + split_all(s.skip(i + 1), '\n')).map_values(f)
                =~= seq![strip_cr(s.take(i))] + split_all(s.skip(i + 1), '\n').map_values(f));
        }
    }
}

/// Splitting three space-free pieces joined by single spaces gives
/// back exactly those pieces.
pub proof fn lemma_split_three(a: Seq<char>, b: Seq<char>, c: Seq<char>)
    requires
        forall|i: int| 0 <= i < a.len() ==> a[i] != ' ',
        forall|i: int| 0 <= i < b.len() ==> b[i] != ' ',
        forall|i: int| 0 <= i < c.len() ==> c[i] != ' ',
    ensures
        split_all(a + " "@ + b + " "@ + c, ' ') == seq![a, b, c],
{
    reveal_strlit(" ");
    let sp = " "@;
    let s = a + sp + b + sp + c;
    let t = b + sp + c;
    assert(s.len() == a.len() + 1 + b.len() + 1 + c.len());
    assert forall|j: int| 0 <= j < a.len() implies s[j] == a[j] by {
        assert((a + sp)[j] == a[j]);
        assert((a + sp + b)[j] == (a + sp)[j]);
        assert((a + sp + b + sp)[j] == (a + sp + b)[j]);
    }
    assert(s[a.len() as int] == ' ') by {
        assert((a + sp)[a.len() as int] == ' ');
        assert((a + sp + b)[a.len() as int] == (a + sp)[a.len() as int]);
        assert((a + sp + b + sp)[a.len() as int] == (a + sp + b)[a.len() as int]);
    }
    lemma_first_idx_is(s, ' ', a.len() as int);
    assert(split_all(s, ' ') == seq![s.take(a.len() as int)] + split_all(
        s.skip(a.len() + 1 as int),
        ' ',
    ));
    assert(s.take(a.len() as int) =~= a);
    assert(s.skip(a.len() + 1 as int) =~= t);
    assert forall|j: int| 0 <= j < b.len() implies t[j] == b[j] by {
        assert((b + sp)[j] == b[j]);
    }
    assert(t[b.len() as int] == ' ') by {
        assert((b + sp)[b.len() as int] == ' ');
    }
    lemma_first_idx_is(t, ' ', b.len() as int);
    assert(split_all(t, ' ') == seq![t.take(b.len() as int)] + split_all(
        t.skip(b.len() + 1 as int),
        ' ',
    ));
    assert(t.take(b.len() as int) =~= b);
    assert(t.skip(b.len() + 1 as int) =~= c);
    lemma_first_idx_is(c, ' ', c.len() as int);
    assert(split_all(c, ' ') == seq![c]);
    assert(seq![a] + (seq![b] + seq![c]) =~= seq![a, b, c]);
}

/// Index of the first pair whose key is `k`; `m.len()` if absent.
pub open spec fn key_idx(m: StrPairs, k: Seq<char>) -> nat
    decreases m.len(),
{
    if m.len() == 0 {
        0
    } else if m[0].0 == k {
        0
    } else {
        1 + key_idx(m.drop_first(), k)
    }
}

/// Whether some pair of `m` has key `k`.
pub open spec fn has_key(m: StrPairs, k: Seq<char>) -> bool {
    key_idx(m, k) < m.len()
}

/// The value stored under `k`, if any.
pub open spec fn lookup(m: StrPairs, k: Seq<char>) -> Option<Seq<char>> {
    if has_key(m, k) {
        Some(m[key_idx(m, k) as int].1)
    } else {
        None
    }
}

/// Insert with last-write-wins semantics: an existing pair for `k` is
/// overwritten in place, a fresh key is appended at the end.
pub open spec fn seq_insert(m: StrPairs, k: Seq<char>, v: Seq<char>) -> StrPairs {
    if has_key(m, k) {
        m.update(key_idx(m, k) as int, (k, v))
    } else {
        m.push((k, v))
    }
}

/// No two pairs share a key.
pub open spec fn distinct_keys(m: StrPairs) -> bool {
    forall|i: int, j: int| 0 <= i < j < m.len() ==> m[i].0 != m[j].0
}

pub proof fn lemma_key_idx(m: StrPairs, k: Seq<char>)
    ensures
        key_idx(m, k) <= m.len(),
        key_idx(m, k) < m.len() ==> m[key_idx(m, k) as int].0 == k,
        forall|j: int| 0 <= j < key_idx(m, k) ==> m[j].0 != k,
    decreases m.len(),
{
    if m.len() == 0 {
    } else if m[0].0 == k {
    } else {
        lemma_key_idx(m.drop_first(), k);
        assert forall|j: int| 0 <= j < key_idx(m, k) implies m[j].0 != k by {
            if j > 0 {
                assert(m[j] == m.drop_first()[j - 1]);
            }
        }
    }
}

pub proof fn lemma_key_idx_is(m: StrPairs, k: Seq<char>, i: int)
    requires
        0 <= i <= m.len(),
        forall|j: int| 0 <= j < i ==> m[j].0 != k,
        i < m.len() ==> m[i].0 == k,
    ensures
        key_idx(m, k) == i,
    decreases m.len(),
{
    if m.len() == 0 {
    } else if m[0].0 == k {
        assert(i == 0);
    } else {
        assert(forall|j: int| 0 <= j < i - 1 ==> m.drop_first()[j] == m[j + 1]);
        assert(i >= 1);
        if i < m.len() {
            assert(m.drop_first()[i - 1] == m[i]);
        }
        lemma_key_idx_is(m.drop_first(), k, i - 1);
    }
}

/// What an insertion does to every later lookup: the inserted key now
/// maps to the new value and every other key is untouched.
pub proof fn lemma_insert_lookup(m: StrPairs, k: Seq<char>, v: Seq<char>)
    ensures
        lookup(seq_insert(m, k, v), k) == Some(v),
        forall|k2: Seq<char>| k2 != k ==> lookup(seq_insert(m, k, v), k2) == lookup(m, k2),
{
    lemma_key_idx(m, k);
    let m2 = seq_insert(m, k, v);
    let i0 = key_idx(m, k) as int;
    lemma_key_idx_is(m2, k, i0);
    assert forall|k2: Seq<char>| k2 != k implies lookup(m2, k2) == lookup(m, k2) by {
        lemma_key_idx(m, k2);
        let i2 = key_idx(m, k2) as int;
        if has_key(m, k2) {
            assert(m2[i2].0 == k2);
            lemma_key_idx_is(m2, k2, i2);
        } else {
            lemma_key_idx_is(m2, k2, m2.len() as int);
        }
    }
}

/// Insertion keeps the keys distinct.
pub proof fn lemma_insert_distinct(m: StrPairs, k: Seq<char>, v: Seq<char>)
    requires
        distinct_keys(m),
    ensures
        distinct_keys(seq_insert(m, k, v)),
{
    lemma_key_idx(m, k);
}

/// Relies on `String::push`: appends exactly the given character.
#[verifier::external_body]
pub fn push_char(s: &mut String, c: char)
    ensures
        final(s)@ == old(s)@.push(c),
{
    s.push(c);
}

/// Character-wise string equality.
pub fn str_eq(a: &str, b: &str) -> (r: bool)
    ensures
        r == (a@ == b@),
{
    let n = a.unicode_len();
    if n != b.unicode_len() {
        return false;
    }
    let mut i: usize = 0;
    while i < n
        invariant
            i <= n,
            n == a@.len(),
            n == b@.len(),
            forall|j: int| 0 <= j < i ==> a@[j] == b@[j],
        decreases n - i,
    {
        if a.get_char(i) != b.get_char(i) {
            return false;
        }
        i += 1;
    }
    proof {
        assert(a@ =~= b@);
    }
    true
}

/// Index of the first occurrence of `c` at or after `from`; `s@.len()`
/// if there is none.
pub fn find_from(s: &str, c: char, from: usize) -> (r: usize)
    requires
        from <= s@.len(),
    ensures
        from <= r <= s@.len(),
        r < s@.len() ==> s@[r as int] == c,
        forall|j: int| from <= j < r ==> s@[j] != c,
    {
    let n = s.unicode_len();
    let mut i = from;
    while i < n && s.get_char(i) != c
        invariant
            from <= i <= n,
            n == s@.len(),
            forall|j: int| from <= j < i ==> s@[j] != c,
        decreases n - i,
    {
        i += 1;
    }
    i
}

pub fn is_wsp_char(c: char) -> (r: bool)
    ensures
        r == is_wsp(c),
{
    c == ' ' || c == '\t' || c == '\r' || c == '\n'
}

/// The slice of `s` with leading and trailing whitespace removed.
pub fn trim_of(s: &str) -> (r: &str)
    ensures
        r@ == spec_trim(s@),
{
    let n = s.unicode_len();
    let mut a: usize = 0;
    while a < n && is_wsp_char(s.get_char(a))
        invariant
            a <= n,
            n == s@.len(),
            forall|j: int| 0 <= j < a ==> is_wsp(s@[j]),
        decreases n - a,
    {
        a += 1;
    }
    let mut b: usize = n;
    while b > a && is_wsp_char(s.get_char(b - 1))
        invariant
            a <= b <= n,
            n == s@.len(),
            forall|j: int| b <= j < n ==> is_wsp(s@[j]),
        decreases b,
    {
        b -= 1;
    }
    proof {
        lemma_trim_start_skip(s@, a as int);
        let t = s@.skip(a as int);
        assert(forall|j: int| 0 <= j < t.len() ==> t[j] == s@[j + a]);
        lemma_trim_end_take(t, b - a);
        assert(t.take(b - a) =~= s@.subrange(a as int, b as int));
    }
    s.substring_char(a, b)
}

/// The lines of `s`, as [`spec_lines`] describes them.
pub fn lines_of(s: &str) -> (r: Vec<String>)
    ensures
        r.deep_view() == spec_lines(s@),
{
    let n = s.unicode_len();
    let mut res: Vec<String> = Vec::new();
    let mut start: usize = 0;
    proof {
        assert(s@.skip(0) =~= s@);
        assert(res.deep_view() =~= Seq::<Seq<char>>::empty());
        assert(Seq::<Seq<char>>::empty() + spec_lines(s@) =~= spec_lines(s@));
    }
    while start < n
        invariant
            start <= n,
            n == s@.len(),
            spec_lines(s@) == res.deep_view() + spec_lines(s@.skip(start as int)),
        decreases n - start,
    {
        let ghost old_dv = res.deep_view();
        let j = find_from(s, '\n', start);
        let end = if j > start && s.get_char(j - 1) == '\r' {
            j - 1
        } else {
            j
        };
        let line = String::from_str(s.substring_char(start, end));
        res.push(line);
        proof {
            let t = s@.skip(start as int);
            assert(forall|k: int| 0 <= k < t.len() ==> t[k] == s@[k + start]);
            assert(res.deep_view() =~= old_dv.push(line@));
            assert(strip_cr(s@.subrange(start as int, j as int)) =~= s@.subrange(
                start as int,
                end as int,
            ));
            if j < n {
                lemma_lines_step(t, j - start);
                assert(t.take(j - start) =~= s@.subrange(start as int, j as int));
                assert(t.skip(j - start + 1) =~= s@.skip(j + 1));
                assert(spec_lines(s@) == res.deep_view() + spec_lines(s@.skip(j + 1))) by {
                    assert(old_dv + (seq![line@] + spec_lines(s@.skip(j + 1)))
                        =~= old_dv.push(line@) + spec_lines(s@.skip(j + 1)));
                }
            } else {
                assert(t.len() > 0);
                lemma_lines_single(t);
                assert(t =~= s@.subrange(start as int, j as int));
                assert(spec_lines(s@.skip(n as int)) =~= Seq::<Seq<char>>::empty());
                assert(old_dv + seq![line@] =~= old_dv.push(line@));
                assert(spec_lines(s@) == res.deep_view() + spec_lines(s@.skip(n as int))) by {
                    assert(old_dv + (seq![line@] + Seq::<Seq<char>>::empty())
                        =~= old_dv.push(line@) + Seq::<Seq<char>>::empty());
                    assert(seq![line@] + Seq::<Seq<char>>::empty() =~= seq![line@]);
                }
            }
        }
        start = if j < n {
            j + 1
        } else {
            n
        };
    }
    proof {
        assert(s@.skip(start as int) =~= Seq::<char>::empty());
        assert(res.deep_view() + spec_lines(Seq::<char>::empty()) =~= res.deep_view());
    }
    res
}

/// ASCII upper-case letters mapped to lower case; all else unchanged.
pub open spec fn lower_char(c: char) -> char {
    if 'A' <= c && c <= 'Z' {
        ((c as u8) + 32) as char
    } else {
        c
    }
}

pub open spec fn spec_lower(s: Seq<char>) -> Seq<char> {
    s.map_values(|c: char| lower_char(c))
}

/// `s` with every ASCII upper-case letter lower-cased.
pub fn to_lower(s: &str) -> (r: String)
    ensures
        r@ == spec_lower(s@),
{
    let n = s.unicode_len();
    let mut r = String::new();
    let mut i: usize = 0;
    while i < n
        invariant
            i <= n,
            n == s@.len(),
            r@ =~= spec_lower(s@.take(i as int)),
        decreases n - i,
    {
        let c = s.get_char(i);
        let l = if 'A' <= c && c <= 'Z' {
            ((c as u8) + 32) as char
        } else {
            c
        };
        push_char(&mut r, l);
        proof {
            assert(s@.take(i + 1).map_values(|ch: char| lower_char(ch)) =~= s@.take(
                i as int,
            ).map_values(|ch: char| lower_char(ch)).push(lower_char(s@[i as int])));
        }
        i += 1;
    }
    proof {
        assert(s@.take(n as int) =~= s@);
    }
    r
}

} // verus!

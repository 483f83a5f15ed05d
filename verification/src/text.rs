//! Text helpers shared by the protocol and conversion code: character access,
//! comparison, trimming, splitting and byte-offset slicing of strings.
use vstd::prelude::*;
use vstd::string::StrSliceExecFns;
use vstd::string::StringExecFns;
use vstd::utf8::decode_utf8;
use vstd::utf8::encode_utf8;
use vstd::utf8::is_char_boundary;

verus! {

broadcast use vstd::string::group_string_axioms;

/// The characters of a string, in order.
pub fn chars_of(s: &str) -> (r: Vec<char>)
    ensures
        r@ == s@,
{
    let mut r: Vec<char> = Vec::new();
    for c in it: s.chars()
        invariant
            r@ == it.seq().take(it.index() as int),
            it.seq() == s@,
    {
        r.push(c);
    }
    r
}

/// Character-wise equality of two strings.
pub fn str_eq(a: &str, b: &str) -> (r: bool)
    ensures
        r == (a@ == b@),
{
    let x = chars_of(a);
    let y = chars_of(b);
    if x.len() != y.len() {
        return false;
    }
    let mut i: usize = 0;
    while i < x.len()
        invariant
            x@ == a@,
            y@ == b@,
            x.len() == y.len(),
            i <= x.len(),
            forall|j: int| 0 <= j < i ==> x@[j] == y@[j],
        decreases x.len() - i,
    {
        if x[i] != y[i] {
            return false;
        }
        i = i + 1;
    }
    assert(x@ =~= y@);
    true
}

/// `p` is a prefix of `s`.
pub open spec fn is_prefix(p: Seq<char>, s: Seq<char>) -> bool {
    p.len() <= s.len() && s.subrange(0, p.len() as int) == p
}

/// Whether `s` starts with `prefix`.
pub fn starts_with(s: &str, prefix: &str) -> (r: bool)
    ensures
        r == is_prefix(prefix@, s@),
{
    let x = chars_of(s);
    let p = chars_of(prefix);
    if p.len() > x.len() {
        return false;
    }
    let mut i: usize = 0;
    while i < p.len()
        invariant
            x@ == s@,
            p@ == prefix@,
            p.len() <= x.len(),
            i <= p.len(),
            forall|j: int| 0 <= j < i ==> x@[j] == p@[j],
        decreases p.len() - i,
    {
        if x[i] != p[i] {
            assert(s@.subrange(0, p@.len() as int)[i as int] != prefix@[i as int]);
            return false;
        }
        i = i + 1;
    }
    assert(s@.subrange(0, p@.len() as int) =~= prefix@);
    true
}

/// `pat` occurs in `s` at position `i`.
pub open spec fn occurs_at(s: Seq<char>, pat: Seq<char>, i: int) -> bool {
    0 <= i && i + pat.len() <= s.len() && s.subrange(i, i + pat.len()) == pat
}

/// `pat` occurs somewhere in `s`.
pub open spec fn occurs_in(s: Seq<char>, pat: Seq<char>) -> bool {
    exists|i: int| occurs_at(s, pat, i)
}

/// Whether `pat` occurs as a substring of `s`.
pub fn contains(s: &str, pat: &str) -> (r: bool)
    ensures
        r == occurs_in(s@, pat@),
{
    let x = chars_of(s);
    let p = chars_of(pat);
    if p.len() > x.len() {
        assert forall|i: int| !occurs_at(s@, pat@, i) by {}
        return false;
    }
    let last = x.len() - p.len();
    let mut i: usize = 0;
    while i <= last
        invariant
            x@ == s@,
            p@ == pat@,
            last == x.len() - p.len(),
            i <= last + 1,
            forall|k: int| 0 <= k < i ==> !occurs_at(s@, pat@, k),
        decreases last + 1 - i,
    {
        let mut j: usize = 0;
        let mut same = true;
        while j < p.len()
            invariant
                x@ == s@,
                p@ == pat@,
                i <= last,
                last == x.len() - p.len(),
                j <= p.len(),
                same == (forall|k: int| 0 <= k < j ==> x@[i + k] == p@[k]),
            decreases p.len() - j,
        {
            if x[i + j] != p[j] {
                same = false;
            }
            j = j + 1;
        }
        if same {
            assert(s@.subrange(i as int, i + pat@.len()) =~= pat@);
            assert(occurs_at(s@, pat@, i as int));
            return true;
        }
        assert(!occurs_at(s@, pat@, i as int)) by {
            if occurs_at(s@, pat@, i as int) {
                assert forall|k: int| 0 <= k < p@.len() implies x@[i + k] == p@[k] by {
                    assert(s@.subrange(i as int, i + pat@.len())[k] == pat@[k]);
                }
            }
        }
        i = i + 1;
    }
    assert forall|k: int| !occurs_at(s@, pat@, k) by {
        if 0 <= k && k < i {
        }
    }
    false
}

/// Unicode `White_Space` characters, the set that Rust's `char::is_whitespace` recognises.
pub open spec fn is_space(c: char) -> bool {
    ||| '\u{9}' <= c <= '\u{d}'
    ||| c == ' '
    ||| c == '\u{85}'
    ||| c == '\u{a0}'
    ||| c == '\u{1680}'
    ||| '\u{2000}' <= c <= '\u{200a}'
    ||| c == '\u{2028}'
    ||| c == '\u{2029}'
    ||| c == '\u{202f}'
    ||| c == '\u{205f}'
    ||| c == '\u{3000}'
}

/// Whether `c` is a Unicode white-space character.
pub fn is_whitespace(c: char) -> (r: bool)
    ensures
        r == is_space(c),
{
    ('\u{9}' <= c && c <= '\u{d}') || c == ' ' || c == '\u{85}' || c == '\u{a0}' || c
        == '\u{1680}' || ('\u{2000}' <= c && c <= '\u{200a}') || c == '\u{2028}' || c == '\u{2029}'
        || c == '\u{202f}' || c == '\u{205f}' || c == '\u{3000}'
}

/// `s` with leading and trailing white space removed.
pub open spec fn trimmed(s: Seq<char>) -> Seq<char>
    decreases s.len(),
{
    if s.len() == 0 {
        s
    } else if is_space(s[0]) {
        trimmed(s.drop_first())
    } else if is_space(s.last()) {
        trimmed(s.drop_last())
    } else {
        s
    }
}

proof fn lemma_trimmed_range(s: Seq<char>, a: int, b: int)
    requires
        0 <= a <= b <= s.len(),
        forall|k: int| 0 <= k < a ==> is_space(#[trigger] s[k]),
        forall|k: int| b <= k < s.len() ==> is_space(#[trigger] s[k]),
        a == b || (!is_space(s[a]) && !is_space(s[b - 1])),
    ensures
        trimmed(s) == s.subrange(a, b),
    decreases s.len(),
{
    if s.len() == 0 {
        assert(s.subrange(a, b) =~= s);
    } else if is_space(s[0]) {
        let t = s.drop_first();
        if a == 0 {
            assert(a == b);
            assert forall|k: int| 0 <= k < t.len() implies is_space(#[trigger] t[k]) by {
                assert(t[k] == s[k + 1]);
            }
            lemma_all_space_trimmed(t);
            assert(s.subrange(a, b) =~= Seq::<char>::empty());
        } else {
            assert forall|k: int| 0 <= k < a - 1 implies is_space(#[trigger] t[k]) by {
                assert(t[k] == s[k + 1]);
            }
            assert forall|k: int| b - 1 <= k < t.len() implies is_space(#[trigger] t[k]) by {
                assert(t[k] == s[k + 1]);
            }
            lemma_trimmed_range(t, a - 1, b - 1);
            assert(t.subrange(a - 1, b - 1) =~= s.subrange(a, b));
        }
    } else if is_space(s.last()) {
        let t = s.drop_last();
        if a == b {
            assert(false) by {
                assert(!is_space(s[0]));
                if a > 0 {
                    assert(is_space(s[0]));
                } else {
                    assert(is_space(s[0]));
                }
            }
        }
        assert(b < s.len());
        assert forall|k: int| 0 <= k < a implies is_space(#[trigger] t[k]) by {
            assert(t[k] == s[k]);
        }
        assert forall|k: int| b <= k < t.len() implies is_space(#[trigger] t[k]) by {
            assert(t[k] == s[k]);
        }
        lemma_trimmed_range(t, a, b);
        assert(t.subrange(a, b) =~= s.subrange(a, b));
    } else {
        if a == b {
            assert(is_space(s[0]) || a > 0);
        }
        if a > 0 {
            assert(is_space(s[0]));
        }
        if b < s.len() {
            assert(is_space(s[s.len() - 1]));
        }
        assert(s.subrange(a, b) =~= s);
    }
}

proof fn lemma_all_space_trimmed(s: Seq<char>)
    requires
        forall|k: int| 0 <= k < s.len() ==> is_space(#[trigger] s[k]),
    ensures
        trimmed(s) == Seq::<char>::empty(),
    decreases s.len(),
{
    if s.len() == 0 {
        assert(s =~= Seq::<char>::empty());
    } else {
        let t = s.drop_first();
        assert(is_space(s[0]));
        assert forall|k: int| 0 <= k < t.len() implies is_space(#[trigger] t[k]) by {
            assert(t[k] == s[k + 1]);
        }
        lemma_all_space_trimmed(t);
    }
}

/// Removes leading and trailing white space, as `str::trim` does.
pub fn trim(s: &str) -> (r: &str)
    ensures
        r@ == trimmed(s@),
{
    let x = chars_of(s);
    let n = x.len();
    let mut a: usize = 0;
    while a < n && is_whitespace(x[a])
        invariant
            x@ == s@,
            n == x.len(),
            a <= n,
            forall|k: int| 0 <= k < a ==> is_space(#[trigger] s@[k]),
        decreases n - a,
    {
        a = a + 1;
    }
    let mut b: usize = n;
    while b > a && is_whitespace(x[b - 1])
        invariant
            x@ == s@,
            n == x.len(),
            a <= b <= n,
            forall|k: int| b <= k < n ==> is_space(#[trigger] s@[k]),
            a < n ==> !is_space(s@[a as int]),
        decreases b,
    {
        b = b - 1;
    }
    proof {
        lemma_trimmed_range(s@, a as int, b as int);
    }
    s.substring_char(a, b)
}

/// A field separator of the line protocol: `:` or `,`.
pub open spec fn is_separator(c: char) -> bool {
    c == ':' || c == ','
}

/// The pieces of `s` between separators, as `str::split` with a `:`/`,` predicate
/// produces them: always at least one piece, empty pieces included.
pub open spec fn split_fields_spec(s: Seq<char>) -> Seq<Seq<char>>
    decreases s.len(),
{
    if s.len() == 0 {
        seq![Seq::<char>::empty()]
    } else {
        let rest = split_fields_spec(s.drop_last());
        if is_separator(s.last()) {
            rest.push(Seq::<char>::empty())
        } else {
            rest.update(rest.len() - 1, rest.last().push(s.last()))
        }
    }
}

proof fn lemma_split_fields_nonempty(s: Seq<char>)
    ensures
        split_fields_spec(s).len() >= 1,
    decreases s.len(),
{
    if s.len() > 0 {
        lemma_split_fields_nonempty(s.drop_last());
    }
}

/// Splits `s` at every `:` and `,`.
pub fn split_fields<'a>(s: &'a str) -> (r: Vec<&'a str>)
    ensures
        r@.map_values(|p: &str| p@) == split_fields_spec(s@),
{
    let x = chars_of(s);
    let n = x.len();
    let mut r: Vec<&'a str> = Vec::new();
    let mut start: usize = 0;
    let mut i: usize = 0;
    assert(r@.map_values(|p: &str| p@) =~= Seq::<Seq<char>>::empty());
    assert(s@.subrange(0, 0) =~= Seq::<char>::empty());
    assert(r@.map_values(|p: &str| p@).push(s@.subrange(0, 0)) =~= seq![Seq::<char>::empty()]);
    while i < n
        invariant
            x@ == s@,
            n == x.len(),
            start <= i <= n,
            r@.map_values(|p: &str| p@).push(s@.subrange(start as int, i as int))
                == split_fields_spec(s@.subrange(0, i as int)),
        decreases n - i,
    {
        proof {
            let pre = s@.subrange(0, i + 1);
            assert(pre.drop_last() =~= s@.subrange(0, i as int));
            assert(pre.last() == s@[i as int]);
            lemma_split_fields_nonempty(pre.drop_last());
        }
        if x[i] == ':' || x[i] == ',' {
            let piece = s.substring_char(start, i);
            let ghost old_r = r@;
            r.push(piece);
            assert(r@.map_values(|p: &str| p@) =~= old_r.map_values(|p: &str| p@).push(
                s@.subrange(start as int, i as int),
            ));
            start = i + 1;
            assert(s@.subrange(start as int, i + 1) =~= Seq::<char>::empty());
        } else {
            assert(s@.subrange(start as int, i + 1) =~= s@.subrange(start as int, i as int).push(
                s@[i as int],
            ));
        }
        i = i + 1;
    }
    let last = s.substring_char(start, n);
    let ghost old_r = r@;
    r.push(last);
    assert(r@.map_values(|p: &str| p@) =~= old_r.map_values(|p: &str| p@).push(
        s@.subrange(start as int, n as int),
    ));
    assert(s@.subrange(0, n as int) =~= s@);
    r
}

/// The characters encoded by the first `n` bytes of the UTF-8 encoding of `s`.
pub open spec fn byte_prefix(s: Seq<char>, n: int) -> Seq<char> {
    decode_utf8(encode_utf8(s).subrange(0, n))
}

/// The characters encoded by the UTF-8 encoding of `s` from byte `n` on.
pub open spec fn byte_suffix(s: Seq<char>, n: int) -> Seq<char> {
    decode_utf8(encode_utf8(s).subrange(n, encode_utf8(s).len() as int))
}

/// Byte offset `n` falls on a character boundary of `s` (and within it).
pub open spec fn is_byte_boundary(s: Seq<char>, n: int) -> bool {
    is_char_boundary(encode_utf8(s), n)
}

/// Splits `s` at byte offset `n`, as `&s[..n]` and `&s[n..]` do.
pub fn split_at_byte(s: &str, n: usize) -> (r: (&str, &str))
    requires
        is_byte_boundary(s@, n as int),
    ensures
        r.0@ == byte_prefix(s@, n as int),
        r.1@ == byte_suffix(s@, n as int),
{
    broadcast use vstd::utf8::encode_utf8_decode_utf8;

    let r = s.split_at(n);
    assert(r.0@ == decode_utf8(encode_utf8(r.0@)));
    assert(r.1@ == decode_utf8(encode_utf8(r.1@)));
    r
}

/// `a` followed by `b`, as a new string.
pub fn concat(a: &str, b: &str) -> (r: String)
    ensures
        r@ == a@ + b@,
{
    String::from_str(a).concat(b)
}

/// `a`, `b` and `c` joined, as a new string.
pub fn concat3(a: &str, b: &str, c: &str) -> (r: String)
    ensures
        r@ == a@ + b@ + c@,
{
    String::from_str(a).concat(b).concat(c)
}

/// A copy of `s`.
pub fn owned(s: &str) -> (r: String)
    ensures
        r@ == s@,
{
    String::from_str(s)
}

/// Strings as character sequences.
pub open spec fn texts(v: Seq<String>) -> Seq<Seq<char>> {
    v.map_values(|s: String| s@)
}

/// `x` occurs in `s` once more after `a` is appended exactly when it occurred
/// before or is `a`.
pub proof fn lemma_push_contains<A>(s: Seq<A>, a: A, x: A)
    ensures
        s.push(a).contains(x) <==> (s.contains(x) || x == a),
{
    if s.contains(x) {
        let k = choose|k: int| 0 <= k < s.len() && #[trigger] s[k] == x;
        assert(s.push(a)[k] == x);
    }
    if x == a {
        assert(s.push(a)[s.len() as int] == x);
    }
    if s.push(a).contains(x) {
        let k = choose|k: int| 0 <= k < s.push(a).len() && #[trigger] s.push(a)[k] == x;
        if k < s.len() {
            assert(s[k] == x);
        }
    }
}

/// Whether `v` holds a string equal to `s`.
pub fn contains_string(v: &Vec<String>, s: &str) -> (r: bool)
    ensures
        r == texts(v@).contains(s@),
{
    let ghost vv = texts(v@);
    let mut i: usize = 0;
    while i < v.len()
        invariant
            i <= v.len(),
            vv == texts(v@),
            forall|j: int| 0 <= j < i ==> vv[j] != s@,
        decreases v.len() - i,
    {
        if str_eq(v[i].as_str(), s) {
            assert(vv[i as int] == s@);
            return true;
        }
        i = i + 1;
    }
    false
}

/// The elements of `v` in reverse order.
pub fn reverse_vec<T>(v: Vec<T>) -> (r: Vec<T>)
    ensures
        r@ == v@.reverse(),
{
    let ghost orig = v@;
    let n = v.len();
    let mut v = v;
    let mut r: Vec<T> = Vec::new();
    let mut i: usize = 0;
    while i < n
        invariant
            i <= n,
            n == orig.len(),
            v@ == orig.take(n - i),
            r@ == orig.skip(n - i).reverse(),
        decreases n - i,
    {
        let x = v.pop().unwrap();
        assert(v@ =~= orig.take(n - i - 1));
        r.push(x);
        assert(r@ =~= orig.skip(n - i - 1).reverse());
        i = i + 1;
    }
    assert(orig.skip(0) =~= orig);
    r
}

/// The pieces of `s` between occurrences of `sep`, as `str::split` with a
/// character produces them: always at least one piece, empty pieces included.
pub open spec fn split_char_spec(s: Seq<char>, sep: char) -> Seq<Seq<char>>
    decreases s.len(),
{
    if s.len() == 0 {
        seq![Seq::<char>::empty()]
    } else {
        let rest = split_char_spec(s.drop_last(), sep);
        if s.last() == sep {
            rest.push(Seq::<char>::empty())
        } else {
            rest.update(rest.len() - 1, rest.last().push(s.last()))
        }
    }
}

/// There is always a first (and a last) piece.
pub proof fn lemma_split_char_nonempty(s: Seq<char>, sep: char)
    ensures
        split_char_spec(s, sep).len() >= 1,
    decreases s.len(),
{
    if s.len() > 0 {
        lemma_split_char_nonempty(s.drop_last(), sep);
    }
}

/// Splits `s` at every `sep`.
pub fn split_char<'a>(s: &'a str, sep: char) -> (r: Vec<&'a str>)
    ensures
        r@.map_values(|p: &str| p@) == split_char_spec(s@, sep),
{
    let x = chars_of(s);
    let n = x.len();
    let mut r: Vec<&'a str> = Vec::new();
    let mut start: usize = 0;
    let mut i: usize = 0;
    assert(r@.map_values(|p: &str| p@) =~= Seq::<Seq<char>>::empty());
    assert(s@.subrange(0, 0) =~= Seq::<char>::empty());
    assert(r@.map_values(|p: &str| p@).push(s@.subrange(0, 0)) =~= seq![Seq::<char>::empty()]);
    while i < n
        invariant
            x@ == s@,
            n == x.len(),
            start <= i <= n,
            r@.map_values(|p: &str| p@).push(s@.subrange(start as int, i as int))
                == split_char_spec(s@.subrange(0, i as int), sep),
        decreases n - i,
    {
        proof {
            let pre = s@.subrange(0, i + 1);
            assert(pre.drop_last() =~= s@.subrange(0, i as int));
            assert(pre.last() == s@[i as int]);
            lemma_split_char_nonempty(pre.drop_last(), sep);
        }
        if x[i] == sep {
            let piece = s.substring_char(start, i);
            let ghost old_r = r@;
            r.push(piece);
            assert(r@.map_values(|p: &str| p@) =~= old_r.map_values(|p: &str| p@).push(
                s@.subrange(start as int, i as int),
            ));
            start = i + 1;
            assert(s@.subrange(start as int, i + 1) =~= Seq::<char>::empty());
        } else {
            assert(s@.subrange(start as int, i + 1) =~= s@.subrange(start as int, i as int).push(
                s@[i as int],
            ));
        }
        i = i + 1;
    }
    let last = s.substring_char(start, n);
    let ghost old_r = r@;
    r.push(last);
    assert(r@.map_values(|p: &str| p@) =~= old_r.map_values(|p: &str| p@).push(
        s@.subrange(start as int, n as int),
    ));
    assert(s@.subrange(0, n as int) =~= s@);
    r
}

} // verus!

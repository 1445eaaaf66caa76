use vstd::prelude::*;
use vstd::string::StrSliceExecFns;
use vstd::string::StringExecFns;

verus! {

broadcast use vstd::seq::group_seq_axioms;

// ── Ordering of strings ─────────────────────────────────────────────

/// Lexicographic order by code point. Rust orders `String` by its UTF-8
/// bytes, and UTF-8 keeps the order of code points, so this is the order
/// in which a `BTreeMap<String, _>` walks its keys.
pub open spec fn str_lt(a: Seq<char>, b: Seq<char>) -> bool
    decreases a.len(),
{
    if a.len() == 0 {
        b.len() > 0
    } else if b.len() == 0 {
        false
    } else if a[0] != b[0] {
        a[0] < b[0]
    } else {
        str_lt(a.drop_first(), b.drop_first())
    }
}

pub proof fn lemma_str_lt_irreflexive(a: Seq<char>)
    ensures
        !str_lt(a, a),
    decreases a.len(),
{
    if a.len() > 0 {
        lemma_str_lt_irreflexive(a.drop_first());
    }
}

pub proof fn lemma_str_lt_transitive(a: Seq<char>, b: Seq<char>, c: Seq<char>)
    requires
        str_lt(a, b),
        str_lt(b, c),
    ensures
        str_lt(a, c),
    decreases a.len(),
{
    if a.len() > 0 && b.len() > 0 && c.len() > 0 && a[0] == b[0] && b[0] == c[0] {
        lemma_str_lt_transitive(a.drop_first(), b.drop_first(), c.drop_first());
    }
}

pub proof fn lemma_str_lt_total(a: Seq<char>, b: Seq<char>)
    ensures
        a == b || str_lt(a, b) || str_lt(b, a),
    decreases a.len(),
{
    if a.len() > 0 && b.len() > 0 && a[0] == b[0] {
        lemma_str_lt_total(a.drop_first(), b.drop_first());
        if a.drop_first() == b.drop_first() {
            assert(a =~= seq![a[0]] + a.drop_first());
            assert(b =~= seq![b[0]] + b.drop_first());
        }
    } else if a.len() == 0 && b.len() == 0 {
        assert(a =~= b);
    }
}

pub proof fn lemma_str_lt_asymmetric(a: Seq<char>, b: Seq<char>)
    requires
        str_lt(a, b),
    ensures
        !str_lt(b, a),
{
    if str_lt(b, a) {
        lemma_str_lt_transitive(a, b, a);
        lemma_str_lt_irreflexive(a);
    }
}

proof fn lemma_str_lt_skip(a: Seq<char>, b: Seq<char>, i: int)
    requires
        0 <= i < a.len(),
        i < b.len(),
        a[i] == b[i],
    ensures
        str_lt(a.skip(i), b.skip(i)) == str_lt(a.skip(i + 1), b.skip(i + 1)),
{
    assert(a.skip(i).drop_first() =~= a.skip(i + 1));
    assert(b.skip(i).drop_first() =~= b.skip(i + 1));
}

// ── Characters of a string ──────────────────────────────────────────

/// `String::push`, which appends one character.
#[verifier::external_body]
fn push_char(s: &mut String, c: char)
    ensures
        final(s)@ == old(s)@.push(c),
{
    s.push(c)
}

/// The characters of `s`, one by one.
pub fn chars_of(s: &str) -> (v: Vec<char>)
    ensures
        v@ == s@,
{
    let n = s.unicode_len();
    let mut v: Vec<char> = Vec::new();
    let mut i: usize = 0;
    while i < n
        invariant
            n == s@.len(),
            i <= n,
            v@ =~= s@.subrange(0, i as int),
        decreases n - i,
    {
        let c = s.get_char(i);
        v.push(c);
        i = i + 1;
    }
    v
}

/// A string made of the characters `chars[from..to]`.
pub fn string_from_chars(chars: &Vec<char>, from: usize, to: usize) -> (s: String)
    requires
        from <= to <= chars@.len(),
    ensures
        s@ == chars@.subrange(from as int, to as int),
{
    let mut s = String::new();
    let mut i = from;
    while i < to
        invariant
            from <= i <= to <= chars@.len(),
            s@ =~= chars@.subrange(from as int, i as int),
        decreases to - i,
    {
        push_char(&mut s, chars[i]);
        i = i + 1;
    }
    s
}

/// `a` followed by `b`.
pub fn concat(a: &str, b: &str) -> (s: String)
    ensures
        s@ == a@ + b@,
{
    let mut s = a.to_owned();
    s.append(b);
    s
}

/// `a`, `b` and `c` one after the other.
pub fn concat3(a: &str, b: &str, c: &str) -> (s: String)
    ensures
        s@ == a@ + b@ + c@,
{
    let mut s = a.to_owned();
    s.append(b);
    s.append(c);
    s
}

/// Whether `a` comes before `b` in code-point order.
pub fn str_less(a: &str, b: &str) -> (r: bool)
    ensures
        r == str_lt(a@, b@),
{
    let x = chars_of(a);
    let y = chars_of(b);
    let mut i: usize = 0;
    assert(a@.skip(0) =~= a@);
    assert(b@.skip(0) =~= b@);
    while i < x.len() && i < y.len() && x[i] == y[i]
        invariant
            x@ == a@,
            y@ == b@,
            i <= x@.len(),
            i <= y@.len(),
            str_lt(a@, b@) == str_lt(a@.skip(i as int), b@.skip(i as int)),
        decreases x@.len() - i,
    {
        proof {
            lemma_str_lt_skip(a@, b@, i as int);
        }
        i = i + 1;
    }
    proof {
        assert(a@.skip(i as int).len() == a@.len() - i);
        if i < x@.len() {
            assert(a@.skip(i as int)[0] == a@[i as int]);
        }
        if i < y@.len() {
            assert(b@.skip(i as int)[0] == b@[i as int]);
        }
    }
    if i == x.len() {
        i < y.len()
    } else if i == y.len() {
        false
    } else {
        x[i] < y[i]
    }
}

/// Whether the two strings hold the same characters.
pub fn str_eq(a: &str, b: &str) -> (r: bool)
    ensures
        r == (a@ == b@),
{
    let x = chars_of(a);
    let y = chars_of(b);
    if x.len() != y.len() {
        return false;
    }
    let mut i: usize = 0;
    while i < x.len()
        invariant
            x@ == a@,
            y@ == b@,
            x@.len() == y@.len(),
            i <= x@.len(),
            forall|j: int| 0 <= j < i ==> x@[j] == y@[j],
        decreases x@.len() - i,
    {
        if x[i] != y[i] {
            return false;
        }
        i = i + 1;
    }
    assert(a@ =~= b@);
    true
}

// ── Prefixes, suffixes, substrings ──────────────────────────────────

pub open spec fn has_prefix(s: Seq<char>, p: Seq<char>) -> bool {
    p.len() <= s.len() && s.subrange(0, p.len() as int) == p
}

pub open spec fn has_suffix(s: Seq<char>, p: Seq<char>) -> bool {
    p.len() <= s.len() && s.subrange(s.len() - p.len(), s.len() as int) == p
}

/// `s` holds `needle` somewhere as a contiguous run.
pub open spec fn has_substring(s: Seq<char>, needle: Seq<char>) -> bool {
    exists|i: int|
        0 <= i && i + needle.len() <= s.len() && #[trigger] s.subrange(i, i + needle.len()) == needle
}

fn seq_match_at(s: &Vec<char>, p: &Vec<char>, at: usize) -> (r: bool)
    requires
        at + p@.len() <= s@.len(),
    ensures
        r == (s@.subrange(at as int, at + p@.len()) == p@),
{
    let sl = s.len();
    let mut i: usize = 0;
    while i < p.len()
        invariant
            sl == s@.len(),
            at + p@.len() <= s@.len(),
            i <= p@.len(),
            forall|j: int| 0 <= j < i ==> s@[at + j] == p@[j],
        decreases p@.len() - i,
    {
        assert(at + i < s@.len());
        if s[at + i] != p[i] {
            assert(s@.subrange(at as int, at + p@.len())[i as int] != p@[i as int]);
            return false;
        }
        i = i + 1;
    }
    assert(s@.subrange(at as int, at + p@.len()) =~= p@);
    true
}

/// `str::starts_with` for a string pattern.
pub fn starts_with(s: &str, p: &str) -> (r: bool)
    ensures
        r == has_prefix(s@, p@),
{
    let x = chars_of(s);
    let y = chars_of(p);
    if y.len() > x.len() {
        return false;
    }
    seq_match_at(&x, &y, 0)
}

/// `str::ends_with` for a string pattern.
pub fn ends_with(s: &str, p: &str) -> (r: bool)
    ensures
        r == has_suffix(s@, p@),
{
    let x = chars_of(s);
    let y = chars_of(p);
    if y.len() > x.len() {
        return false;
    }
    seq_match_at(&x, &y, x.len() - y.len())
}

/// `str::contains` for a string pattern.
pub fn contains_str(s: &str, needle: &str) -> (r: bool)
    ensures
        r == has_substring(s@, needle@),
{
    let x = chars_of(s);
    let y = chars_of(needle);
    if y.len() > x.len() {
        assert forall|i: int| 0 <= i && i + y@.len() <= x@.len() implies #[trigger] x@.subrange(
            i,
            i + y@.len(),
        ) != y@ by {}
        return false;
    }
    let last = x.len() - y.len();
    let mut at: usize = 0;
    while at < last
        invariant
            x@ == s@,
            y@ == needle@,
            last == x@.len() - y@.len(),
            at <= last,
            forall|i: int| 0 <= i < at ==> #[trigger] x@.subrange(i, i + y@.len()) != y@,
        decreases last - at,
    {
        if seq_match_at(&x, &y, at) {
            return true;
        }
        at = at + 1;
    }
    seq_match_at(&x, &y, at)
}

/// `str::strip_prefix` for a string pattern.
pub fn strip_prefix(s: &str, p: &str) -> (r: Option<String>)
    ensures
        r is Some <==> has_prefix(s@, p@),
        r matches Some(rest) ==> rest@ == s@.subrange(p@.len() as int, s@.len() as int),
{
    let x = chars_of(s);
    let y = chars_of(p);
    if y.len() > x.len() {
        return None;
    }
    if seq_match_at(&x, &y, 0) {
        Some(string_from_chars(&x, y.len(), x.len()))
    } else {
        None
    }
}

/// `s` with every `from` replaced by `to`.
pub open spec fn replace_char(s: Seq<char>, from: char, to: char) -> Seq<char> {
    s.map_values(|c: char| if c == from { to } else { c })
}

/// `str::replace` with a one-character pattern and a one-character
/// replacement.
pub fn replace_char_exec(s: &str, from: char, to: char) -> (r: String)
    ensures
        r@ == replace_char(s@, from, to),
{
    let x = chars_of(s);
    let mut r = String::new();
    let mut i: usize = 0;
    while i < x.len()
        invariant
            x@ == s@,
            i <= x@.len(),
            r@ =~= replace_char(s@.subrange(0, i as int), from, to),
        decreases x@.len() - i,
    {
        let c = x[i];
        if c == from {
            push_char(&mut r, to);
        } else {
            push_char(&mut r, c);
        }
        proof {
            assert(s@.subrange(0, i + 1) =~= s@.subrange(0, i as int).push(c));
        }
        i = i + 1;
    }
    assert(s@.subrange(0, x@.len() as int) =~= s@);
    r
}

/// The index of the last `c` in `s`, if any.
pub open spec fn last_index_of(s: Seq<char>, c: char) -> Option<int>
    decreases s.len(),
{
    if s.len() == 0 {
        None
    } else if s.last() == c {
        Some(s.len() - 1)
    } else {
        last_index_of(s.drop_last(), c)
    }
}

pub proof fn lemma_last_index_of(s: Seq<char>, c: char)
    ensures
        last_index_of(s, c) matches Some(i) ==> 0 <= i < s.len() && s[i] == c && forall|
            j: int,
        |
            i < j < s.len() ==> s[j] != c,
        last_index_of(s, c) is None ==> forall|j: int| 0 <= j < s.len() ==> s[j] != c,
    decreases s.len(),
{
    if s.len() > 0 && s.last() != c {
        let t = s.drop_last();
        lemma_last_index_of(t, c);
        assert forall|j: int| 0 <= j < t.len() implies t[j] == s[j] by {}
        if last_index_of(s, c) is None {
            assert forall|j: int| 0 <= j < s.len() implies s[j] != c by {
                if j < t.len() {
                    assert(t[j] == s[j]);
                }
            }
        } else {
            let i = last_index_of(s, c)->0;
            assert forall|j: int| i < j < s.len() implies s[j] != c by {
                if j < t.len() {
                    assert(t[j] == s[j]);
                }
            }
        }
    }
}

/// `str::rsplit_once` for a one-character delimiter: the text before and
/// after the last `c`.
pub fn rsplit_once(s: &str, c: char) -> (r: Option<(String, String)>)
    ensures
        r is Some <==> last_index_of(s@, c) is Some,
        r matches Some(parts) ==> {
            let i = last_index_of(s@, c)->0;
            &&& parts.0@ == s@.subrange(0, i)
            &&& parts.1@ == s@.subrange(i + 1, s@.len() as int)
        },
{
    proof {
        lemma_last_index_of(s@, c);
    }
    let x = chars_of(s);
    let mut i: usize = x.len();
    while i > 0 && x[i - 1] != c
        invariant
            x@ == s@,
            i <= x@.len(),
            forall|j: int| i <= j < x@.len() ==> x@[j] != c,
        decreases i,
    {
        i = i - 1;
    }
    if i == 0 {
        proof {
            if last_index_of(s@, c) is Some {
                let k = last_index_of(s@, c)->0;
                assert(x@[k] == c);
            }
        }
        None
    } else {
        proof {
            let k = last_index_of(s@, c)->0;
            assert(k == i - 1) by {
                if k < i - 1 {
                    assert(x@[i - 1] == c);
                }
                if k > i - 1 {
                    assert(x@[k] == c);
                }
            }
        }
        let before = string_from_chars(&x, 0, i - 1);
        let after = string_from_chars(&x, i, x.len());
        Some((before, after))
    }
}

// ── Whitespace and lines ────────────────────────────────────────────

/// `char::is_whitespace`: the characters with the Unicode property
/// White_Space.
pub open spec fn is_white(c: char) -> bool {
    ||| '\t' <= c <= '\r'
    ||| c == ' '
    ||| c == '\u{85}'
    ||| c == '\u{A0}'
    ||| c == '\u{1680}'
    ||| '\u{2000}' <= c <= '\u{200A}'
    ||| c == '\u{2028}'
    ||| c == '\u{2029}'
    ||| c == '\u{202F}'
    ||| c == '\u{205F}'
    ||| c == '\u{3000}'
}

pub fn is_white_exec(c: char) -> (r: bool)
    ensures
        r == is_white(c),
{
    ('\t' <= c && c <= '\r') || c == ' ' || c == '\u{85}' || c == '\u{A0}' || c == '\u{1680}'
        || ('\u{2000}' <= c && c <= '\u{200A}') || c == '\u{2028}' || c == '\u{2029}' || c
        == '\u{202F}' || c == '\u{205F}' || c == '\u{3000}'
}

/// `str::trim`: `s` without its leading and trailing whitespace.
#[verifier::opaque]
pub open spec fn trimmed(s: Seq<char>) -> Seq<char> {
    if forall|i: int| 0 <= i < s.len() ==> is_white(#[trigger] s[i]) {
        Seq::empty()
    } else {
        let a = choose|a: int|
            0 <= a < s.len() && !is_white(s[a]) && forall|j: int| 0 <= j < a ==> is_white(#[trigger] s[j]);
        let b = choose|b: int|
            0 <= b < s.len() && !is_white(s[b]) && forall|j: int|
                b < j < s.len() ==> is_white(#[trigger] s[j]);
        s.subrange(a, b + 1)
    }
}

pub fn trim(s: &str) -> (r: String)
    ensures
        r@ == trimmed(s@),
{
    let x = chars_of(s);
    let n = x.len();
    let mut a: usize = 0;
    while a < n && is_white_exec(x[a])
        invariant
            x@ == s@,
            n == x@.len(),
            a <= n,
            forall|j: int| 0 <= j < a ==> is_white(#[trigger] s@[j]),
        decreases n - a,
    {
        a = a + 1;
    }
    if a == n {
        proof {
            reveal(trimmed);
        }
        return String::new();
    }
    let mut b: usize = n - 1;
    while is_white_exec(x[b])
        invariant
            x@ == s@,
            n == x@.len(),
            a <= b < n,
            !is_white(s@[a as int]),
            forall|j: int| b < j < n ==> is_white(#[trigger] s@[j]),
        decreases b,
    {
        b = b - 1;
    }
    proof {
        reveal(trimmed);
        let a2 = choose|a2: int|
            0 <= a2 < s@.len() && !is_white(s@[a2]) && forall|j: int|
                0 <= j < a2 ==> is_white(#[trigger] s@[j]);
        assert(!is_white(s@[a as int]));
        assert(a2 == a) by {
            if a2 < a {
                assert(is_white(s@[a2]));
            }
            if a2 > a {
                assert(is_white(s@[a as int]));
            }
        }
        let b2 = choose|b2: int|
            0 <= b2 < s@.len() && !is_white(s@[b2]) && forall|j: int|
                b2 < j < s@.len() ==> is_white(#[trigger] s@[j]);
        assert(!is_white(s@[b as int]));
        assert(b2 == b) by {
            if b2 < b {
                assert(is_white(s@[b as int]));
            }
            if b2 > b {
                assert(is_white(s@[b2]));
            }
        }
    }
    string_from_chars(&x, a, b + 1)
}

/// The index of the first `'\n'` at or after `i`, or the length of `s`.
pub open spec fn next_newline(s: Seq<char>, i: int) -> int
    decreases s.len() - i,
{
    if i >= s.len() || i < 0 {
        s.len() as int
    } else if s[i] == '\n' {
        i
    } else {
        next_newline(s, i + 1)
    }
}

/// A line without the `'\r'` of a `"\r\n"` ending.
pub open spec fn without_cr(line: Seq<char>) -> Seq<char> {
    if line.len() > 0 && line.last() == '\r' {
        line.drop_last()
    } else {
        line
    }
}

/// `str::lines` from index `start` on: the text is cut at each `'\n'`;
/// a line that ended with `"\r\n"` loses the `'\r'`; a final line ending
/// gives no empty line after it.
pub open spec fn lines_from(s: Seq<char>, start: int) -> Seq<Seq<char>>
    decreases s.len() - start,
{
    if start < 0 || start >= s.len() {
        Seq::empty()
    } else {
        let e = next_newline(s, start);
        proof {
            lemma_next_newline(s, start);
        }
        if e >= s.len() {
            seq![s.subrange(start, s.len() as int)]
        } else {
            seq![without_cr(s.subrange(start, e))] + lines_from(s, e + 1)
        }
    }
}

#[verifier::opaque]
pub open spec fn lines(s: Seq<char>) -> Seq<Seq<char>> {
    lines_from(s, 0)
}

pub proof fn lemma_next_newline(s: Seq<char>, i: int)
    requires
        0 <= i <= s.len(),
    ensures
        i <= next_newline(s, i) <= s.len(),
        forall|j: int| i <= j < next_newline(s, i) ==> s[j] != '\n',
        next_newline(s, i) < s.len() ==> s[next_newline(s, i)] == '\n',
    decreases s.len() - i,
{
    if i < s.len() && s[i] != '\n' {
        lemma_next_newline(s, i + 1);
    }
}

/// `str::lines`, each line as a `String`.
pub fn split_lines(s: &str) -> (r: Vec<String>)
    ensures
        r@.len() == lines(s@).len(),
        forall|i: int| 0 <= i < r@.len() ==> (#[trigger] r@[i])@ == lines(s@)[i],
{
    proof {
        reveal(lines);
    }
    let x = chars_of(s);
    let n = x.len();
    let mut out: Vec<String> = Vec::new();
    let mut start: usize = 0;
    while start < n
        invariant
            x@ == s@,
            n == x@.len(),
            start <= n,
            out@.len() + lines_from(s@, start as int).len() == lines(s@).len(),
            forall|i: int| 0 <= i < out@.len() ==> (#[trigger] out@[i])@ == lines(s@)[i],
            forall|i: int|
                0 <= i < lines_from(s@, start as int).len() ==> lines(s@)[out@.len() + i]
                    == #[trigger] lines_from(s@, start as int)[i],
        decreases n - start,
    {
        proof {
            lemma_next_newline(s@, start as int);
        }
        let mut e = start;
        while e < n && x[e] != '\n'
            invariant
                x@ == s@,
                n == x@.len(),
                start <= e <= n,
                e <= next_newline(s@, start as int) <= n,
                next_newline(s@, start as int) < n ==> s@[next_newline(s@, start as int)] == '\n',
                forall|j: int| start <= j < e ==> s@[j] != '\n',
            decreases n - e,
        {
            e = e + 1;
        }
        assert(e == next_newline(s@, start as int));
        let ghost rest = lines_from(s@, start as int);
        if e == n {
            let line = string_from_chars(&x, start, n);
            out.push(line);
            start = n;
        } else {
            let mut end = e;
            if end > start && x[end - 1] == '\r' {
                end = end - 1;
            }
            proof {
                let l = s@.subrange(start as int, e as int);
                if e > start && x@[e - 1] == '\r' {
                    assert(l.drop_last() =~= s@.subrange(start as int, end as int));
                }
            }
            let line = string_from_chars(&x, start, end);
            out.push(line);
            start = e + 1;
        }
        proof {
            assert(rest[0] == out@.last()@);
            assert forall|i: int|
                0 <= i < lines_from(s@, start as int).len() implies lines(s@)[out@.len() + i]
                == #[trigger] lines_from(s@, start as int)[i] by {
                assert(lines_from(s@, start as int)[i] == rest[i + 1]);
            }
        }
    }
    out
}

} // verus!

verus! {

// ── Paths ───────────────────────────────────────────────────────────

/// `Path::join` on Unix paths held as text: a path that starts with `/`
/// replaces the base; otherwise the two are put together with one `/`
/// between them, unless the base is empty or already ends with `/`.
pub open spec fn path_join(base: Seq<char>, p: Seq<char>) -> Seq<char> {
    if p.len() > 0 && p[0] == '/' {
        p
    } else if base.len() == 0 || base.last() == '/' {
        base + p
    } else {
        base + seq!['/'] + p
    }
}

pub fn join(base: &str, p: &str) -> (r: String)
    ensures
        r@ == path_join(base@, p@),
{
    let x = chars_of(base);
    let y = chars_of(p);
    if y.len() > 0 && y[0] == '/' {
        return p.to_owned();
    }
    let mut r = base.to_owned();
    if !(x.len() == 0 || x[x.len() - 1] == '/') {
        push_char(&mut r, '/');
    }
    r.append(p);
    r
}

} // verus!

verus! {

/// What `Path::strip_prefix` leaves of `path` once `base` is taken off its
/// front, compared component by component; nothing when `base` is not a
/// prefix of `path`.
pub uninterp spec fn stripped_path(path: Seq<char>, base: Seq<char>) -> Option<Seq<char>>;

/// `Path::strip_prefix`, with the remainder as text.
#[verifier::external_body]
pub(crate) fn strip_path_prefix(path: &str, base: &str) -> (r: Option<String>)
    ensures
        r is Some <==> stripped_path(path@, base@) is Some,
        r matches Some(s) ==> s@ == stripped_path(path@, base@)->0,
{
    match std::path::Path::new(path).strip_prefix(base) {
        Ok(rest) => Some(rest.to_string_lossy().into_owned()),
        Err(_) => None,
    }
}

/// The path of a workspace as the plan shows it: the remainder after the
/// root when the root is a prefix of it, else the path itself.
pub fn relative_to_root(path: &str, stripped: Option<String>) -> (r: String)
    ensures
        r@ == match stripped {
            Some(s) => s@,
            None => path@,
        },
{
    match stripped {
        Some(s) => s,
        None => path.to_owned(),
    }
}

} // verus!

verus! {

// ── Sorting ─────────────────────────────────────────────────────────

/// `a` does not come after `b`.
pub open spec fn str_le(a: Seq<char>, b: Seq<char>) -> bool {
    !str_lt(b, a)
}

pub open spec fn sorted_texts(s: Seq<Seq<char>>) -> bool {
    forall|i: int, j: int| 0 <= i < j < s.len() ==> str_le(#[trigger] s[i], #[trigger] s[j])
}

pub open spec fn texts_of(v: Seq<String>) -> Seq<Seq<char>> {
    v.map_values(|s: String| s@)
}

proof fn lemma_le_trans(a: Seq<char>, b: Seq<char>, c: Seq<char>)
    requires
        str_le(a, b),
        str_le(b, c),
    ensures
        str_le(a, c),
{
    if str_lt(c, a) {
        lemma_str_lt_total(a, b);
        lemma_str_lt_total(b, c);
        if str_lt(a, b) {
            lemma_str_lt_transitive(c, a, b);
        } else if a == b {
        } else {
        }
    }
}

/// `Vec::sort` on strings: the same strings in increasing order.
pub fn sort_strings(v: &Vec<String>) -> (r: Vec<String>)
    ensures
        sorted_texts(texts_of(r@)),
        texts_of(r@).to_multiset() == texts_of(v@).to_multiset(),
{
    let mut out: Vec<String> = Vec::new();
    let mut i: usize = 0;
    assert(texts_of(out@) =~= texts_of(v@).take(0));
    while i < v.len()
        invariant
            i <= v@.len(),
            sorted_texts(texts_of(out@)),
            texts_of(out@).to_multiset() == texts_of(v@).take(i as int).to_multiset(),
        decreases v@.len() - i,
    {
        let x = &v[i];
        let mut p: usize = 0;
        while p < out.len() && !str_less(x.as_str(), out[p].as_str())
            invariant
                p <= out@.len(),
                forall|j: int| 0 <= j < p ==> str_le(#[trigger] out@[j]@, x@),
            decreases out@.len() - p,
        {
            proof {
                lemma_str_lt_total(x@, out@[p as int]@);
            }
            p = p + 1;
        }
        let ghost before = texts_of(out@);
        out.insert(p, x.clone());
        proof {
            let after = texts_of(out@);
            assert(after =~= before.insert(p as int, x@));
            assert forall|a: int, b: int| 0 <= a < b < after.len() implies str_le(
                #[trigger] after[a],
                #[trigger] after[b],
            ) by {
                if b < p {
                    assert(str_le(before[a], before[b]));
                } else if a < p && b == p {
                } else if a < p && b > p {
                    assert(str_le(before[a], before[b - 1]));
                } else if a == p {
                    if b - 1 > p {
                        assert(str_le(before[p as int], before[b - 1]));
                        lemma_str_lt_asymmetric(x@, before[p as int]);
                        lemma_le_trans(x@, before[p as int], before[b - 1]);
                    } else {
                        lemma_str_lt_asymmetric(x@, before[p as int]);
                    }
                } else {
                    assert(str_le(before[a - 1], before[b - 1]));
                }
            }
            assert(after.remove(p as int) =~= before);
            assert(after[p as int] == x@);
            assert(texts_of(v@).take(i + 1) =~= texts_of(v@).take(i as int).push(x@));
            assert(after.to_multiset() =~= before.to_multiset().insert(x@)) by {
                after.to_multiset_ensures();
                before.to_multiset_ensures();
                assert(after.contains(x@));
                assert(after.remove(p as int).to_multiset() =~= after.to_multiset().remove(after[p as int]));
                assert(after.to_multiset().contains(x@));
            }
            texts_of(v@).take(i as int).to_multiset_ensures();
        }
        i = i + 1;
    }
    assert(texts_of(v@).take(v@.len() as int) =~= texts_of(v@));
    out
}

} // verus!

verus! {

/// What `Path::parent` gives for `p`: the path without its last component,
/// or nothing for a root or an empty path.
pub uninterp spec fn parent_path(p: Seq<char>) -> Option<Seq<char>>;

/// `Path::parent`, as text.
#[verifier::external_body]
pub(crate) fn path_parent(p: &str) -> (r: Option<String>)
    ensures
        r is Some <==> parent_path(p@) is Some,
        r matches Some(s) ==> s@ == parent_path(p@)->0,
{
    match std::path::Path::new(p).parent() {
        Some(parent) => Some(parent.to_string_lossy().into_owned()),
        None => None,
    }
}

/// The directory a link at `link` lives in: its parent, or `.` when it has
/// none.
pub fn parent_or_current(parent: Option<String>) -> (r: String)
    ensures
        r@ == match parent {
            Some(s) => s@,
            None => "."@,
        },
{
    match parent {
        Some(s) => s,
        None => ".".to_owned(),
    }
}


/// What `Path::file_name` gives for `p`: its last component, or nothing
/// when the path ends in `..` or has no component.
pub uninterp spec fn file_name_of(p: Seq<char>) -> Option<Seq<char>>;

/// `Path::file_name`, as text.
#[verifier::external_body]
pub(crate) fn path_file_name(p: &str) -> (r: Option<String>)
    ensures
        r is Some <==> file_name_of(p@) is Some,
        r matches Some(s) ==> s@ == file_name_of(p@)->0,
{
    match std::path::Path::new(p).file_name() {
        Some(name) => Some(name.to_string_lossy().into_owned()),
        None => None,
    }
}

} // verus!

//! Character-level helpers on strings, each stated over the `Seq<char>` view.
use vstd::prelude::*;

verus! {

/// Appends one character to a string: calls `String::push`, which (as its
/// documentation says) appends the character to the end. Trusted, not
/// proved.
#[verifier::external_body]
pub(crate) fn push_char(s: &mut String, c: char)
    ensures
        final(s)@ == old(s)@.push(c),
{
    s.push(c);
}

/// The characters of a string, one by one.
pub fn chars_of(s: &str) -> (v: Vec<char>)
    ensures
        v@ == s@,
{
    let n = s.unicode_len();
    let mut v: Vec<char> = Vec::new();
    let mut i: usize = 0;
    while i < n
        invariant
            n == s@.len(),
            i <= n,
            v@ == s@.subrange(0, i as int),
        decreases n - i,
    {
        v.push(s.get_char(i));
        i = i + 1;
    }
    assert(v@ == s@);
    v
}

/// The string made of the given characters.
pub fn string_of(v: &[char]) -> (s: String)
    ensures
        s@ == v@,
{
    let mut s = String::new();
    let mut i: usize = 0;
    while i < v.len()
        invariant
            i <= v@.len(),
            s@ == v@.subrange(0, i as int),
        decreases v.len() - i,
    {
        push_char(&mut s, v[i]);
        i = i + 1;
    }
    assert(s@ == v@);
    s
}

/// The characters `v[from..to]` as a string.
pub fn string_of_range(v: &[char], from: usize, to: usize) -> (s: String)
    requires
        from <= to <= v@.len(),
    ensures
        s@ == v@.subrange(from as int, to as int),
{
    let mut s = String::new();
    let mut i: usize = from;
    while i < to
        invariant
            from <= i <= to <= v@.len(),
            s@ == v@.subrange(from as int, i as int),
        decreases to - i,
    {
        push_char(&mut s, v[i]);
        i = i + 1;
    }
    s
}

/// Whether two character sequences are equal.
pub fn chars_eq(a: &[char], b: &[char]) -> (r: bool)
    ensures
        r == (a@ == b@),
{
    if a.len() != b.len() {
        return false;
    }
    let mut i: usize = 0;
    while i < a.len()
        invariant
            a@.len() == b@.len(),
            i <= a@.len(),
            forall|k: int| 0 <= k < i ==> a@[k] == b@[k],
        decreases a.len() - i,
    {
        if a[i] != b[i] {
            return false;
        }
        i = i + 1;
    }
    assert(a@ =~= b@);
    true
}

/// Whether two strings hold the same characters.
pub fn str_eq(a: &str, b: &str) -> (r: bool)
    ensures
        r == (a@ == b@),
{
    let va = chars_of(a);
    let vb = chars_of(b);
    chars_eq(va.as_slice(), vb.as_slice())
}

/// Whether `p` is a prefix of `s`.
pub open spec fn has_prefix(s: Seq<char>, p: Seq<char>) -> bool {
    p.len() <= s.len() && s.subrange(0, p.len() as int) == p
}

/// Whether `s` starts with `p`.
pub fn starts_with(s: &[char], p: &[char]) -> (r: bool)
    ensures
        r == has_prefix(s@, p@),
{
    if p.len() > s.len() {
        return false;
    }
    let mut i: usize = 0;
    while i < p.len()
        invariant
            p@.len() <= s@.len(),
            i <= p@.len(),
            forall|k: int| 0 <= k < i ==> s@[k] == p@[k],
        decreases p.len() - i,
    {
        if s[i] != p[i] {
            assert(s@.subrange(0, p@.len() as int)[i as int] != p@[i as int]);
            return false;
        }
        i = i + 1;
    }
    assert(s@.subrange(0, p@.len() as int) =~= p@);
    true
}

/// Lexicographic order on character sequences, by code point: the order of
/// `str` and `String` in Rust.
pub open spec fn lex_lt(a: Seq<char>, b: Seq<char>) -> bool
    decreases a.len(),
{
    if a.len() == 0 {
        b.len() > 0
    } else if b.len() == 0 {
        false
    } else if a[0] != b[0] {
        (a[0] as int) < (b[0] as int)
    } else {
        lex_lt(a.drop_first(), b.drop_first())
    }
}

pub proof fn lemma_lex_irreflexive(a: Seq<char>)
    ensures
        !lex_lt(a, a),
    decreases a.len(),
{
    if a.len() > 0 {
        lemma_lex_irreflexive(a.drop_first());
    }
}

pub proof fn lemma_lex_asymmetric(a: Seq<char>, b: Seq<char>)
    ensures
        !(lex_lt(a, b) && lex_lt(b, a)),
    decreases a.len(),
{
    if a.len() > 0 && b.len() > 0 && a[0] == b[0] {
        lemma_lex_asymmetric(a.drop_first(), b.drop_first());
    }
}

pub proof fn lemma_lex_transitive(a: Seq<char>, b: Seq<char>, c: Seq<char>)
    requires
        lex_lt(a, b),
        lex_lt(b, c),
    ensures
        lex_lt(a, c),
    decreases a.len(),
{
    if a.len() > 0 && b.len() > 0 && c.len() > 0 && a[0] == b[0] && b[0] == c[0] {
        lemma_lex_transitive(a.drop_first(), b.drop_first(), c.drop_first());
    }
}

pub proof fn lemma_lex_total(a: Seq<char>, b: Seq<char>)
    ensures
        a == b || lex_lt(a, b) || lex_lt(b, a),
    decreases a.len(),
{
    if a.len() > 0 && b.len() > 0 && a[0] == b[0] {
        lemma_lex_total(a.drop_first(), b.drop_first());
        if a.drop_first() == b.drop_first() {
            assert(a.len() == a.drop_first().len() + 1 && b.len() == b.drop_first().len() + 1);
            assert forall|k: int| 0 <= k < a.len() implies a[k] == b[k] by {
                if k > 0 {
                    assert(a[k] == a.drop_first()[k - 1]);
                    assert(b[k] == b.drop_first()[k - 1]);
                }
            }
            assert(a =~= b);
        }
    } else if a.len() == 0 && b.len() == 0 {
        assert(a =~= b);
    } else if a.len() > 0 && b.len() > 0 {
        assert((a[0] as int) != (b[0] as int));
    }
}

/// Whether `a` comes strictly before `b` in lexicographic order.
pub fn lex_less(a: &[char], b: &[char]) -> (r: bool)
    ensures
        r == lex_lt(a@, b@),
{
    let mut i: usize = 0;
    assert(a@.skip(0) =~= a@);
    assert(b@.skip(0) =~= b@);
    while i < a.len() && i < b.len() && a[i] == b[i]
        invariant
            i <= a@.len(),
            i <= b@.len(),
            forall|k: int| 0 <= k < i ==> a@[k] == b@[k],
            lex_lt(a@, b@) == lex_lt(a@.skip(i as int), b@.skip(i as int)),
        decreases a.len() - i,
    {
        proof {
            let sa = a@.skip(i as int);
            let sb = b@.skip(i as int);
            assert(sa.drop_first() =~= a@.skip(i + 1));
            assert(sb.drop_first() =~= b@.skip(i + 1));
        }
        i = i + 1;
    }
    if i == a.len() {
        i < b.len()
    } else if i == b.len() {
        false
    } else {
        a[i] < b[i]
    }
}

/// Whether `c` is whitespace in the sense of `char::is_whitespace` (the
/// Unicode `White_Space` property).
pub open spec fn is_space(c: char) -> bool {
    let u = c as u32;
    (0x09 <= u && u <= 0x0d) || u == 0x20 || u == 0x85 || u == 0xa0 || u == 0x1680
        || (0x2000 <= u && u <= 0x200a) || u == 0x2028 || u == 0x2029 || u == 0x202f
        || u == 0x205f || u == 0x3000
}

/// Whether `c` is whitespace (`char::is_whitespace`).
pub fn char_is_space(c: char) -> (r: bool)
    ensures
        r == is_space(c),
{
    let u = c as u32;
    (0x09 <= u && u <= 0x0d) || u == 0x20 || u == 0x85 || u == 0xa0 || u == 0x1680
        || (0x2000 <= u && u <= 0x200a) || u == 0x2028 || u == 0x2029 || u == 0x202f
        || u == 0x205f || u == 0x3000
}

/// `s` without its trailing whitespace (`str::trim_end`).
pub open spec fn trim_end(s: Seq<char>) -> Seq<char>
    decreases s.len(),
{
    if s.len() > 0 && is_space(s.last()) {
        trim_end(s.drop_last())
    } else {
        s
    }
}

/// `s` without its leading whitespace (`str::trim_start`).
pub open spec fn trim_start(s: Seq<char>) -> Seq<char>
    decreases s.len(),
{
    if s.len() > 0 && is_space(s[0]) {
        trim_start(s.drop_first())
    } else {
        s
    }
}

/// `s` without leading and trailing whitespace (`str::trim`).
pub open spec fn trim(s: Seq<char>) -> Seq<char> {
    trim_end(trim_start(s))
}

/// The length of `trim_end(v)`.
pub fn trim_end_len(v: &[char]) -> (n: usize)
    ensures
        n <= v@.len(),
        trim_end(v@) == v@.subrange(0, n as int),
{
    let mut n = v.len();
    assert(v@.subrange(0, n as int) =~= v@);
    while n > 0 && char_is_space(v[n - 1])
        invariant
            n <= v@.len(),
            trim_end(v@) == trim_end(v@.subrange(0, n as int)),
        decreases n,
    {
        assert(v@.subrange(0, n as int).drop_last() =~= v@.subrange(0, n - 1));
        n = n - 1;
    }
    n
}

/// The number of leading whitespace characters of `v`.
pub fn trim_start_len(v: &[char]) -> (n: usize)
    ensures
        n <= v@.len(),
        trim_start(v@) == v@.skip(n as int),
{
    let mut n: usize = 0;
    assert(v@.skip(0) =~= v@);
    while n < v.len() && char_is_space(v[n])
        invariant
            n <= v@.len(),
            trim_start(v@) == trim_start(v@.skip(n as int)),
        decreases v.len() - n,
    {
        assert(v@.skip(n as int).drop_first() =~= v@.skip(n + 1));
        n = n + 1;
    }
    n
}

/// The bounds `(start, end)` of `trim(v)` within `v`.
pub fn trim_bounds(v: &[char]) -> (r: (usize, usize))
    ensures
        r.0 <= r.1 <= v@.len(),
        trim(v@) == v@.subrange(r.0 as int, r.1 as int),
{
    let a = trim_start_len(v);
    let mut n = v.len();
    assert(v@.skip(a as int) =~= v@.subrange(a as int, n as int));
    while n > a && char_is_space(v[n - 1])
        invariant
            a <= n <= v@.len(),
            trim(v@) == trim_end(v@.subrange(a as int, n as int)),
        decreases n,
    {
        assert(v@.subrange(a as int, n as int).drop_last() =~= v@.subrange(a as int, n - 1));
        n = n - 1;
    }
    (a, n)
}

/// The index of the last '/' in `p`, or -1 when there is none.
pub open spec fn last_slash(p: Seq<char>) -> int
    decreases p.len(),
{
    if p.len() == 0 {
        -1
    } else if p.last() == '/' {
        p.len() - 1
    } else {
        last_slash(p.drop_last())
    }
}

pub proof fn lemma_last_slash(p: Seq<char>)
    ensures
        -1 <= last_slash(p) < p.len(),
        last_slash(p) >= 0 ==> p[last_slash(p)] == '/',
        forall|k: int| last_slash(p) < k < p.len() ==> p[k] != '/',
    decreases p.len(),
{
    if p.len() > 0 && p.last() != '/' {
        lemma_last_slash(p.drop_last());
        assert forall|k: int| last_slash(p) < k < p.len() implies p[k] != '/' by {
            if k < p.len() - 1 {
                assert(p[k] == p.drop_last()[k]);
            }
        }
    }
}

/// The final component of a Unix path, as `Path::file_name` gives it:
/// empty components and "." are skipped, and a final ".." (or no component
/// at all) gives `None`.
pub open spec fn file_name(p: Seq<char>) -> Option<Seq<char>>
    decreases p.len(),
{
    let i = last_slash(p);
    let last = p.skip(i + 1);
    if last.len() == 0 || last == seq!['.'] {
        if i >= 0 {
            proof {
                lemma_last_slash(p);
            }
            file_name(p.take(i))
        } else {
            None
        }
    } else if last == seq!['.', '.'] {
        None
    } else {
        Some(last)
    }
}

/// The final component of the path `v`.
pub fn file_name_of(v: &[char]) -> (r: Option<Vec<char>>)
    ensures
        match r {
            Some(f) => file_name(v@) == Some(f@),
            None => file_name(v@) is None,
        },
{
    let mut end = v.len();
    assert(v@.take(end as int) =~= v@);
    loop
        invariant
            end <= v@.len(),
            file_name(v@) == file_name(v@.take(end as int)),
        decreases end,
    {
        let ghost p = v@.take(end as int);
        let mut i = end;
        while i > 0 && v[i - 1] != '/'
            invariant
                i <= end <= v@.len(),
                forall|k: int| i <= k < end ==> v@[k] != '/',
            decreases i,
        {
            i = i - 1;
        }
        // `i` is one past the last slash of `p`
        proof {
            lemma_last_slash(p);
            let ls = last_slash(p);
            if i > 0 {
                assert(p[i - 1] == '/');
                if ls > i - 1 {
                    assert(p[ls] == v@[ls]);
                }
                if ls < i - 1 {
                    assert(p[i - 1] != '/');
                }
            } else {
                if ls >= 0 {
                    assert(p[ls] == v@[ls]);
                }
            }
            assert(ls == i - 1);
        }
        let len = end - i;
        if len == 0 || (len == 1 && v[i] == '.') {
            proof {
                let last = p.skip(i as int);
                if len == 1 {
                    assert(last =~= seq!['.']);
                }
            }
            if i == 0 {
                return None;
            }
            proof {
                assert(p.take(i - 1) =~= v@.take(i - 1));
            }
            end = i - 1;
        } else if len == 2 && v[i] == '.' && v[i + 1] == '.' {
            proof {
                assert(p.skip(i as int) =~= seq!['.', '.']);
            }
            return None;
        } else {
            let mut out: Vec<char> = Vec::new();
            let mut k = i;
            while k < end
                invariant
                    i <= k <= end <= v@.len(),
                    out@ == v@.subrange(i as int, k as int),
                decreases end - k,
            {
                out.push(v[k]);
                k = k + 1;
            }
            proof {
                let last = p.skip(i as int);
                assert(last =~= out@);
                if len == 1 {
                    assert(last[0] != '.');
                    assert(last != seq!['.']);
                }
                if len == 2 {
                    assert(last != seq!['.', '.']) by {
                        if last == seq!['.', '.'] {
                            assert(last[0] == '.' && last[1] == '.');
                        }
                    }
                }
            }
            return Some(out);
        }
    }
}

/// Whether `entry` is a prefix pattern (it ends with '*') that `name`
/// matches: `name` starts with the pattern without its '*'.
pub open spec fn prefix_pattern_matches(entry: Seq<char>, name: Seq<char>) -> bool {
    entry.len() > 0 && entry.last() == '*' && has_prefix(name, entry.drop_last())
}

/// Whether the prefix pattern `entry` matches `name`.
pub fn pattern_matches(entry: &[char], name: &[char]) -> (r: bool)
    ensures
        r == prefix_pattern_matches(entry@, name@),
{
    let n = entry.len();
    if n == 0 || entry[n - 1] != '*' {
        return false;
    }
    if n - 1 > name.len() {
        return false;
    }
    let mut i: usize = 0;
    while i < n - 1
        invariant
            n == entry@.len(),
            n - 1 <= name@.len(),
            i <= n - 1,
            forall|k: int| 0 <= k < i ==> name@[k] == entry@[k],
        decreases n - 1 - i,
    {
        if name[i] != entry[i] {
            assert(name@.subrange(0, n - 1)[i as int] != entry@.drop_last()[i as int]);
            return false;
        }
        i = i + 1;
    }
    assert(name@.subrange(0, n - 1) =~= entry@.drop_last());
    true
}

/// The index of the first newline of `s`, or `s.len()` when there is none.
pub open spec fn nl_index(s: Seq<char>) -> int
    decreases s.len(),
{
    if s.len() == 0 {
        0
    } else if s[0] == '\n' {
        0
    } else {
        1 + nl_index(s.drop_first())
    }
}

/// Where the first newline lies.
pub proof fn lemma_nl_index_bounds(s: Seq<char>)
    ensures
        0 <= nl_index(s) <= s.len(),
        nl_index(s) < s.len() ==> s[nl_index(s)] == '\n',
        forall|k: int| 0 <= k < nl_index(s) ==> s[k] != '\n',
    decreases s.len(),
{
    if s.len() > 0 && s[0] != '\n' {
        lemma_nl_index_bounds(s.drop_first());
        assert forall|k: int| 0 <= k < nl_index(s) implies s[k] != '\n' by {
            if k > 0 {
                assert(s[k] == s.drop_first()[k - 1]);
            }
        }
    }
}

/// The index that a scan for the first newline finds is `nl_index`.
pub proof fn lemma_nl_index_is(s: Seq<char>, j: int)
    requires
        0 <= j <= s.len(),
        forall|k: int| 0 <= k < j ==> s[k] != '\n',
        j < s.len() ==> s[j] == '\n',
    ensures
        nl_index(s) == j,
    decreases s.len(),
{
    if s.len() > 0 && j > 0 {
        assert forall|k: int| 0 <= k < j - 1 implies s.drop_first()[k] != '\n' by {
            assert(s.drop_first()[k] == s[k + 1]);
        }
        if j - 1 < s.len() - 1 {
            assert(s.drop_first()[j - 1] == s[j]);
        }
        lemma_nl_index_is(s.drop_first(), j - 1);
    }
}

/// A line without the carriage return that ends it, if any.
pub open spec fn strip_cr(l: Seq<char>) -> Seq<char> {
    if l.len() > 0 && l.last() == '\r' {
        l.drop_last()
    } else {
        l
    }
}

/// The lines of `s`, as `str::lines` yields them: split at each newline, a
/// carriage return before the newline dropped, no empty line after a final
/// newline.
pub open spec fn lines(s: Seq<char>) -> Seq<Seq<char>>
    decreases s.len(),
{
    if s.len() == 0 {
        Seq::empty()
    } else {
        let k = nl_index(s);
        if k >= s.len() {
            seq![s]
        } else {
            proof {
                lemma_nl_index_bounds(s);
            }
            seq![strip_cr(s.take(k))] + lines(s.skip(k + 1))
        }
    }
}

/// The character sequences held by a list of character vectors.
pub open spec fn char_views(v: Seq<Vec<char>>) -> Seq<Seq<char>> {
    v.map_values(|x: Vec<char>| x@)
}

/// The lines of `v` (`str::lines`).
pub fn lines_of(v: &[char]) -> (ls: Vec<Vec<char>>)
    ensures
        char_views(ls@) == lines(v@),
{
    let n = v.len();
    let mut ls: Vec<Vec<char>> = Vec::new();
    let mut start: usize = 0;
    assert(v@.skip(0) =~= v@);
    while start < n
        invariant
            n == v@.len(),
            start <= n,
            lines(v@) == char_views(ls@) + lines(v@.skip(start as int)),
        decreases n - start,
    {
        let mut j = start;
        while j < n && v[j] != '\n'
            invariant
                start <= j <= n,
                n == v@.len(),
                forall|k: int| start <= k < j ==> v@[k] != '\n',
            decreases n - j,
        {
            j = j + 1;
        }
        let ghost rest = v@.skip(start as int);
        proof {
            lemma_nl_index_is(rest, j - start);
        }
        let mut line_end = j;
        if j < n && j > start && v[j - 1] == '\r' {
            line_end = j - 1;
        }
        let mut line: Vec<char> = Vec::new();
        let mut k = start;
        while k < line_end
            invariant
                start <= k <= line_end <= n,
                n == v@.len(),
                line@ == v@.subrange(start as int, k as int),
            decreases line_end - k,
        {
            line.push(v[k]);
            k = k + 1;
        }
        let ghost next_start: int = if j < n { j + 1 } else { n as int };
        proof {
            if j < n {
                assert(rest.take(j - start) =~= v@.subrange(start as int, j as int));
                assert(rest.skip(j - start + 1) =~= v@.skip(j + 1));
                assert(lines(rest) == seq![strip_cr(rest.take(j - start))] + lines(rest.skip(j - start + 1)));
                assert(strip_cr(rest.take(j - start)) =~= line@);
            } else {
                assert(rest =~= line@);
                assert(v@.skip(n as int) =~= Seq::<char>::empty());
                assert(lines(rest) == seq![rest]);
            }
            assert(lines(rest) =~= seq![line@] + lines(v@.skip(next_start)));
        }
        let ghost before = char_views(ls@);
        ls.push(line);
        assert(char_views(ls@) =~= before.push(line@));
        assert(before + lines(rest) =~= before.push(line@) + lines(v@.skip(next_start)));
        start = if j < n { j + 1 } else { n };
    }
    assert(v@.skip(n as int) =~= Seq::<char>::empty());
    assert(char_views(ls@) + Seq::<Seq<char>>::empty() =~= char_views(ls@));
    ls
}

/// The whitespace-separated words of `s` (`str::split_whitespace`).
pub open spec fn words(s: Seq<char>) -> Seq<Seq<char>>
    decreases s.len(),
{
    if s.len() == 0 {
        Seq::empty()
    } else {
        let r = words(s.drop_last());
        let c = s.last();
        if is_space(c) {
            r
        } else if s.len() == 1 || is_space(s[s.len() - 2]) {
            r.push(seq![c])
        } else {
            r.update(r.len() - 1, r.last().push(c))
        }
    }
}

/// The words of a text that ends in a non-space character are not empty.
proof fn lemma_words_nonempty(s: Seq<char>)
    ensures
        s.len() > 0 && !is_space(s.last()) ==> words(s).len() > 0,
    decreases s.len(),
{
    if s.len() > 1 {
        lemma_words_nonempty(s.drop_last());
        assert(s.drop_last().last() == s[s.len() - 2]);
    }
}

/// The whitespace-separated words of `v`.
pub fn split_whitespace(v: &[char]) -> (ws: Vec<Vec<char>>)
    ensures
        char_views(ws@) == words(v@),
{
    let mut ws: Vec<Vec<char>> = Vec::new();
    let mut i: usize = 0;
    assert(v@.take(0) =~= Seq::<char>::empty());
    assert(char_views(ws@) =~= Seq::<Seq<char>>::empty());
    while i < v.len()
        invariant
            i <= v@.len(),
            char_views(ws@) == words(v@.take(i as int)),
        decreases v.len() - i,
    {
        let c = v[i];
        let ghost pre = v@.take(i as int);
        let ghost cur = v@.take(i + 1);
        assert(cur.drop_last() =~= pre);
        assert(cur.last() == c);
        if char_is_space(c) {
        } else if i == 0 || char_is_space(v[i - 1]) {
            let mut w: Vec<char> = Vec::new();
            w.push(c);
            let ghost before = char_views(ws@);
            ws.push(w);
            assert(char_views(ws@) =~= before.push(seq![c]));
            if i > 0 {
                assert(cur[cur.len() - 2] == v@[i - 1]);
            }
        } else {
            proof {
                assert(cur[cur.len() - 2] == v@[i - 1]);
                assert(pre.last() == v@[i - 1]);
                lemma_words_nonempty(pre);
            }
            let last = ws.len() - 1;
            let ghost before = char_views(ws@);
            let mut w = ws.remove(last);
            w.push(c);
            ws.push(w);
            assert(char_views(ws@) =~= before.update(before.len() - 1, before.last().push(c)));
        }
        i = i + 1;
    }
    assert(v@.take(i as int) =~= v@);
    ws
}

/// The pieces of `s` between occurrences of `sep` (`str::split` on a
/// character): one more piece than there are separators.
pub open spec fn split_on(s: Seq<char>, sep: char) -> Seq<Seq<char>>
    decreases s.len(),
{
    if s.len() == 0 {
        seq![Seq::empty()]
    } else {
        let r = split_on(s.drop_last(), sep);
        if s.last() == sep {
            r.push(Seq::empty())
        } else {
            r.update(r.len() - 1, r.last().push(s.last()))
        }
    }
}

/// Splitting always yields at least one piece.
pub proof fn lemma_split_on_nonempty(s: Seq<char>, sep: char)
    ensures
        split_on(s, sep).len() >= 1,
    decreases s.len(),
{
    if s.len() > 0 {
        lemma_split_on_nonempty(s.drop_last(), sep);
    }
}

/// The pieces of `v` between occurrences of `sep`.
pub fn split_char(v: &[char], sep: char) -> (ps: Vec<Vec<char>>)
    ensures
        char_views(ps@) == split_on(v@, sep),
{
    let mut ps: Vec<Vec<char>> = Vec::new();
    ps.push(Vec::new());
    let mut i: usize = 0;
    assert(v@.take(0) =~= Seq::<char>::empty());
    assert(char_views(ps@) =~= seq![Seq::<char>::empty()]);
    while i < v.len()
        invariant
            i <= v@.len(),
            char_views(ps@) == split_on(v@.take(i as int), sep),
            ps@.len() >= 1,
        decreases v.len() - i,
    {
        let c = v[i];
        let ghost pre = v@.take(i as int);
        assert(v@.take(i + 1).drop_last() =~= pre);
        let ghost before = char_views(ps@);
        if c == sep {
            ps.push(Vec::new());
            assert(char_views(ps@) =~= before.push(Seq::<char>::empty()));
        } else {
            let last = ps.len() - 1;
            let mut w = ps.remove(last);
            w.push(c);
            ps.push(w);
            assert(char_views(ps@) =~= before.update(before.len() - 1, before.last().push(c)));
        }
        i = i + 1;
    }
    assert(v@.take(i as int) =~= v@);
    ps
}

} // verus!

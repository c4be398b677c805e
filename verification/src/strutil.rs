//! Character-sequence utilities shared by the parser and the router:
//! whitespace classification, first-occurrence search, and verified
//! string comparison.

use vstd::prelude::*;

verus! {

/// A character with the Unicode `White_Space` property; `str::trim` and
/// `str::split_whitespace` break on exactly these characters.
pub open spec fn is_space(c: char) -> bool {
    (0x9 <= c as u32 && c as u32 <= 0xd) || c as u32 == 0x20 || c as u32 == 0x85 || c as u32
        == 0xa0 || c as u32 == 0x1680 || (0x2000 <= c as u32 && c as u32 <= 0x200a) || c as u32
        == 0x2028 || c as u32 == 0x2029 || c as u32 == 0x202f || c as u32 == 0x205f || c as u32
        == 0x3000
}

/// Executable whitespace test, equivalent to the spec-level `is_space`.
pub fn char_is_space(c: char) -> (r: bool)
    ensures
        r == is_space(c),
{
    let u: u32 = c as u32;
    (0x9 <= u && u <= 0xd) || u == 0x20 || u == 0x85 || u == 0xa0 || u == 0x1680 || (0x2000 <= u
        && u <= 0x200a) || u == 0x2028 || u == 0x2029 || u == 0x202f || u == 0x205f || u == 0x3000
}

/// Index of the first occurrence of `c` in `s`, or `s.len()` if `c` is absent.
pub open spec fn find_char(s: Seq<char>, c: char) -> nat
    decreases s.len(),
{
    if s.len() == 0 {
        0
    } else if s[0] == c {
        0
    } else {
        1 + find_char(s.subrange(1, s.len() as int), c)
    }
}

/// Index of the first whitespace character of `s`, or `s.len()` if there is none.
pub open spec fn find_space(s: Seq<char>) -> nat
    decreases s.len(),
{
    if s.len() == 0 {
        0
    } else if is_space(s[0]) {
        0
    } else {
        1 + find_space(s.subrange(1, s.len() as int))
    }
}

/// `s` has at least one occurrence of the character `c`.
pub open spec fn contains_char(s: Seq<char>, c: char) -> bool {
    exists|i: int| 0 <= i < s.len() && s[i] == c
}

/// Bounds and characterization of `find_char`, together with its
/// equivalence to `contains_char`.
pub proof fn lemma_find_char(s: Seq<char>, c: char)
    ensures
        find_char(s, c) <= s.len(),
        find_char(s, c) < s.len() ==> s[find_char(s, c) as int] == c,
        forall|j: int| 0 <= j < find_char(s, c) ==> s[j] != c,
        contains_char(s, c) <==> find_char(s, c) < s.len(),
    decreases s.len(),
{
    if s.len() != 0 && s[0] != c {
        let t = s.subrange(1, s.len() as int);
        lemma_find_char(t, c);
        assert forall|j: int| 0 <= j < find_char(s, c) implies s[j] != c by {
            if j > 0 {
                assert(s[j] == t[j - 1]);
            }
        }
        if contains_char(s, c) {
            let w = choose|i: int| 0 <= i < s.len() && s[i] == c;
            assert(t[w - 1] == c);
        }
        if contains_char(t, c) {
            let w = choose|i: int| 0 <= i < t.len() && t[i] == c;
            assert(s[w + 1] == c);
        }
    }
}

/// `find_char` is pinned by a bound `i`: `c` nowhere before `i`, and at
/// `i` itself unless `i` is the length.
pub proof fn lemma_find_char_is(s: Seq<char>, c: char, i: int)
    requires
        0 <= i <= s.len(),
        forall|j: int| 0 <= j < i ==> s[j] != c,
        i < s.len() ==> s[i] == c,
    ensures
        find_char(s, c) == i,
    decreases s.len(),
{
    if s.len() == 0 {
    } else if i == 0 {
    } else {
        let t = s.subrange(1, s.len() as int);
        assert forall|j: int| 0 <= j < i - 1 implies t[j] != c by {
            assert(t[j] == s[j + 1]);
        }
        lemma_find_char_is(t, c, i - 1);
    }
}

/// `find_space` is pinned by a bound `i`: no whitespace before `i`, and
/// whitespace at `i` itself unless `i` is the length.
pub proof fn lemma_find_space_is(s: Seq<char>, i: int)
    requires
        0 <= i <= s.len(),
        forall|j: int| 0 <= j < i ==> !is_space(s[j]),
        i < s.len() ==> is_space(s[i]),
    ensures
        find_space(s) == i,
    decreases s.len(),
{
    if s.len() == 0 {
    } else if i == 0 {
    } else {
        let t = s.subrange(1, s.len() as int);
        assert forall|j: int| 0 <= j < i - 1 implies !is_space(t[j]) by {
            assert(t[j] == s[j + 1]);
        }
        lemma_find_space_is(t, i - 1);
    }
}

/// Executable first-occurrence search over the characters of `s`.
pub fn find_char_in(s: &str, c: char) -> (r: usize)
    ensures
        r == find_char(s@, c),
        r <= s@.len(),
        r < s@.len() ==> s@[r as int] == c,
        forall|j: int| 0 <= j < r ==> s@[j] != c,
        contains_char(s@, c) <==> r < s@.len(),
{
    let n = s.unicode_len();
    let mut i: usize = 0;
    while i < n
        invariant
            i <= n,
            n == s@.len(),
            forall|j: int| 0 <= j < i ==> s@[j] != c,
        decreases n - i,
    {
        if s.get_char(i) == c {
            proof {
                lemma_find_char_is(s@, c, i as int);
                lemma_find_char(s@, c);
            }
            return i;
        }
        i += 1;
    }
    proof {
        lemma_find_char_is(s@, c, n as int);
        lemma_find_char(s@, c);
    }
    n
}

/// A physical line as cut before a line feed: one carriage return directly
/// before the line feed belongs to the line ending and is stripped.
pub open spec fn strip_cr(l: Seq<char>) -> Seq<char> {
    if l.len() > 0 && l[l.len() - 1] == '\r' {
        l.drop_last()
    } else {
        l
    }
}

/// The physical lines of `s`: split at each line feed, one carriage return
/// directly before a line feed stripped, and a final line without a line
/// feed kept as it stands. An ending line feed yields no extra empty line.
pub open spec fn spec_lines(s: Seq<char>) -> Seq<Seq<char>>
    decreases s.len(),
{
    if s.len() == 0 {
        Seq::empty()
    } else {
        let i = find_char(s, '\n');
        if i >= s.len() {
            seq![s]
        } else {
            seq![strip_cr(s.subrange(0, i as int))] + spec_lines(
                s.subrange(i + 1 as int, s.len() as int),
            )
        }
    }
}

/// Lines distribute over concatenation at a clean cut: when `a` is empty or
/// ends with a line feed, the lines of `a + b` are those of `a` then those of `b`.
pub proof fn lemma_lines_append(a: Seq<char>, b: Seq<char>)
    requires
        a.len() == 0 || a[a.len() - 1] == '\n',
    ensures
        spec_lines(a + b) == spec_lines(a) + spec_lines(b),
    decreases a.len(),
{
    if a.len() == 0 {
        assert(a + b =~= b);
        assert(spec_lines(a) + spec_lines(b) =~= spec_lines(b));
    } else {
        lemma_find_char(a, '\n');
        assert(contains_char(a, '\n')) by {
            assert(a[a.len() - 1] == '\n');
        }
        let i = find_char(a, '\n') as int;
        let s = a + b;
        assert forall|j: int| 0 <= j < i implies s[j] != '\n' by {
            assert(s[j] == a[j]);
        }
        assert(s[i] == a[i]);
        lemma_find_char_is(s, '\n', i);
        assert(s.subrange(0, i) =~= a.subrange(0, i));
        let a2 = a.subrange(i + 1, a.len() as int);
        assert(s.subrange(i + 1, s.len() as int) =~= a2 + b);
        if a2.len() > 0 {
            assert(a2[a2.len() - 1] == a[a.len() - 1]);
        }
        lemma_lines_append(a2, b);
        assert(spec_lines(a + b) =~= spec_lines(a) + spec_lines(b));
    }
}

/// One chunk of lines: a piece without a line feed, closed by a line feed,
/// is exactly one line; standing alone and nonempty it is one line as well.
pub proof fn lemma_lines_chunk(l: Seq<char>)
    requires
        !contains_char(l, '\n'),
    ensures
        spec_lines(l.push('\n')) == seq![strip_cr(l)],
        l.len() > 0 ==> spec_lines(l) == seq![l],
{
    lemma_find_char(l, '\n');
    let s = l.push('\n');
    assert forall|j: int| 0 <= j < l.len() implies s[j] != '\n' by {
        assert(s[j] == l[j]);
    }
    assert(s[l.len() as int] == '\n');
    lemma_find_char_is(s, '\n', l.len() as int);
    assert(s.subrange(0, l.len() as int) =~= l);
    assert(s.subrange(l.len() + 1 as int, s.len() as int) =~= Seq::<char>::empty());
    assert(spec_lines(Seq::<char>::empty()) =~= Seq::<Seq<char>>::empty());
    assert(spec_lines(s) =~= seq![strip_cr(l)]);
    if l.len() > 0 {
        assert(find_char(l, '\n') == l.len());
        assert(spec_lines(l) =~= seq![l]);
    }
}

/// Executable line splitter: the views of the returned slices are exactly
/// `spec_lines` of the input.
pub fn split_lines<'a>(s: &'a str) -> (r: Vec<&'a str>)
    ensures
        r.deep_view() == spec_lines(s@),
{
    let n = s.unicode_len();
    let mut r: Vec<&'a str> = Vec::new();
    let mut start: usize = 0;
    let mut i: usize = 0;
    while i < n
        invariant
            n == s@.len(),
            start <= i <= n,
            start == 0 || s@[start - 1] == '\n',
            forall|j: int| start <= j < i ==> s@[j] != '\n',
            r.deep_view() == spec_lines(s@.subrange(0, start as int)),
        decreases n - i,
    {
        if s.get_char(i) == '\n' {
            let end = if i > start && s.get_char(i - 1) == '\r' {
                i - 1
            } else {
                i
            };
            let line = s.substring_char(start, end);
            let ghost old_r = r.deep_view();
            r.push(line);
            proof {
                let p = s@.subrange(0, start as int);
                let l = s@.subrange(start as int, i as int);
                assert(!contains_char(l, '\n')) by {
                    assert forall|j: int| 0 <= j < l.len() implies l[j] != '\n' by {
                        assert(l[j] == s@[start + j]);
                    }
                }
                assert(s@.subrange(0, i + 1) =~= p + l.push('\n'));
                lemma_lines_append(p, l.push('\n'));
                lemma_lines_chunk(l);
                assert(line@ == strip_cr(l)) by {
                    if i > start && s@[i - 1] == '\r' {
                        assert(l[l.len() - 1] == '\r');
                        assert(line@ =~= l.drop_last());
                    } else {
                        if l.len() > 0 {
                            assert(l[l.len() - 1] == s@[i - 1]);
                        }
                        assert(line@ =~= l);
                    }
                }
                assert(r.deep_view() =~= old_r.push(line@));
                assert(r.deep_view() =~= spec_lines(s@.subrange(0, i + 1)));
            }
            start = i + 1;
        }
        i += 1;
    }
    if start < n {
        let line = s.substring_char(start, n);
        let ghost old_r = r.deep_view();
        r.push(line);
        proof {
            let p = s@.subrange(0, start as int);
            let l = s@.subrange(start as int, n as int);
            assert(!contains_char(l, '\n')) by {
                assert forall|j: int| 0 <= j < l.len() implies l[j] != '\n' by {
                    assert(l[j] == s@[start + j]);
                }
            }
            assert(s@ =~= p + l);
            lemma_lines_append(p, l);
            lemma_lines_chunk(l);
            assert(r.deep_view() =~= old_r.push(line@));
            assert(r.deep_view() =~= spec_lines(s@));
        }
    } else {
        proof {
            assert(s@.subrange(0, start as int) =~= s@);
        }
    }
    r
}

/// The whitespace-separated tokens of `s`, in order, each a maximal run of
/// non-whitespace characters; runs of whitespace separate tokens and are
/// dropped, as `str::split_whitespace` does.
pub open spec fn spec_tokens(s: Seq<char>) -> Seq<Seq<char>>
    decreases s.len(),
{
    if s.len() == 0 {
        Seq::empty()
    } else if is_space(s[0]) {
        spec_tokens(s.subrange(1, s.len() as int))
    } else {
        let i = find_space(s);
        if i >= s.len() {
            seq![s]
        } else {
            seq![s.subrange(0, i as int)] + spec_tokens(s.subrange(i as int, s.len() as int))
        }
    }
}

/// Executable whitespace tokenizer: the views of the returned slices are
/// exactly `spec_tokens` of the input.
pub fn split_tokens<'a>(s: &'a str) -> (r: Vec<&'a str>)
    ensures
        r.deep_view() == spec_tokens(s@),
{
    let n = s.unicode_len();
    let mut r: Vec<&'a str> = Vec::new();
    let mut i: usize = 0;
    proof {
        assert(s@.subrange(0, n as int) =~= s@);
        assert(r.deep_view() + spec_tokens(s@) =~= spec_tokens(s@));
    }
    while i < n
        invariant
            n == s@.len(),
            i <= n,
            spec_tokens(s@) == r.deep_view() + spec_tokens(s@.subrange(i as int, n as int)),
        decreases n - i,
    {
        let ghost u = s@.subrange(i as int, n as int);
        if char_is_space(s.get_char(i)) {
            proof {
                assert(u[0] == s@[i as int]);
                assert(u.subrange(1, u.len() as int) =~= s@.subrange(i + 1 as int, n as int));
                assert(r.deep_view() + spec_tokens(u) == r.deep_view() + spec_tokens(
                    s@.subrange(i + 1 as int, n as int),
                ));
            }
            i += 1;
        } else {
            let start = i;
            i += 1;
            while i < n && !char_is_space(s.get_char(i))
                invariant
                    n == s@.len(),
                    start < i <= n,
                    forall|j: int| start <= j < i ==> !is_space(s@[j]),
                decreases n - i,
            {
                i += 1;
            }
            let tok = s.substring_char(start, i);
            let ghost old_r = r.deep_view();
            r.push(tok);
            proof {
                assert forall|j: int| 0 <= j < i - start implies !is_space(u[j]) by {
                    assert(u[j] == s@[start + j]);
                }
                if i < n {
                    assert(u[i - start] == s@[i as int]);
                }
                lemma_find_space_is(u, i - start);
                assert(tok@ =~= u.subrange(0, i - start));
                assert(r.deep_view() =~= old_r.push(tok@));
                if i == n {
                    assert(tok@ =~= u);
                    assert(s@.subrange(n as int, n as int) =~= Seq::<char>::empty());
                    assert(spec_tokens(Seq::<char>::empty()) =~= Seq::<Seq<char>>::empty());
                    assert(old_r + spec_tokens(u) =~= r.deep_view() + spec_tokens(
                        s@.subrange(i as int, n as int),
                    ));
                } else {
                    assert(u.subrange(i - start, u.len() as int) =~= s@.subrange(
                        i as int,
                        n as int,
                    ));
                    assert(old_r + spec_tokens(u) =~= r.deep_view() + spec_tokens(
                        s@.subrange(i as int, n as int),
                    ));
                }
            }
        }
    }
    proof {
        assert(s@.subrange(n as int, n as int) =~= Seq::<char>::empty());
        assert(spec_tokens(Seq::<char>::empty()) =~= Seq::<Seq<char>>::empty());
        assert(r.deep_view() =~= spec_tokens(s@));
    }
    r
}

/// `s` with every leading whitespace character removed.
pub open spec fn trim_start(s: Seq<char>) -> Seq<char>
    decreases s.len(),
{
    if s.len() > 0 && is_space(s[0]) {
        trim_start(s.subrange(1, s.len() as int))
    } else {
        s
    }
}

/// `s` with every trailing whitespace character removed.
pub open spec fn trim_end(s: Seq<char>) -> Seq<char>
    decreases s.len(),
{
    if s.len() > 0 && is_space(s[s.len() - 1]) {
        trim_end(s.drop_last())
    } else {
        s
    }
}

/// `s` with whitespace removed from both ends, as `str::trim` leaves it.
pub open spec fn spec_trim(s: Seq<char>) -> Seq<char> {
    trim_end(trim_start(s))
}

/// `trim_start` cuts exactly at the first non-whitespace position `a`.
pub proof fn lemma_trim_start_at(s: Seq<char>, a: int)
    requires
        0 <= a <= s.len(),
        forall|j: int| 0 <= j < a ==> is_space(s[j]),
        a < s.len() ==> !is_space(s[a]),
    ensures
        trim_start(s) == s.subrange(a, s.len() as int),
    decreases s.len(),
{
    if a == 0 {
        assert(s.subrange(0, s.len() as int) =~= s);
    } else {
        let t = s.subrange(1, s.len() as int);
        assert forall|j: int| 0 <= j < a - 1 implies is_space(t[j]) by {
            assert(t[j] == s[j + 1]);
        }
        lemma_trim_start_at(t, a - 1);
        assert(t.subrange(a - 1, t.len() as int) =~= s.subrange(a, s.len() as int));
    }
}

/// `trim_end` cuts exactly after the last non-whitespace position `b - 1`.
pub proof fn lemma_trim_end_at(s: Seq<char>, b: int)
    requires
        0 <= b <= s.len(),
        forall|j: int| b <= j < s.len() ==> is_space(s[j]),
        b > 0 ==> !is_space(s[b - 1]),
    ensures
        trim_end(s) == s.subrange(0, b),
    decreases s.len(),
{
    if b == s.len() {
        assert(s.subrange(0, s.len() as int) =~= s);
    } else {
        assert(is_space(s[s.len() - 1]));
        let t = s.drop_last();
        assert forall|j: int| b <= j < t.len() implies is_space(t[j]) by {
            assert(t[j] == s[j]);
        }
        lemma_trim_end_at(t, b);
        assert(t.subrange(0, b) =~= s.subrange(0, b));
    }
}

/// Executable trim: the view of the result is `spec_trim` of the input.
pub fn trim_str<'a>(s: &'a str) -> (r: &'a str)
    ensures
        r@ == spec_trim(s@),
{
    let n = s.unicode_len();
    let mut a: usize = 0;
    while a < n && char_is_space(s.get_char(a))
        invariant
            n == s@.len(),
            a <= n,
            forall|j: int| 0 <= j < a ==> is_space(s@[j]),
        decreases n - a,
    {
        a += 1;
    }
    proof {
        lemma_trim_start_at(s@, a as int);
    }
    if a == n {
        let r = s.substring_char(n, n);
        proof {
            assert(s@.subrange(n as int, n as int) =~= Seq::<char>::empty());
            assert(r@ =~= trim_end(trim_start(s@)));
        }
        return r;
    }
    let mut b: usize = n;
    while b > a + 1 && char_is_space(s.get_char(b - 1))
        invariant
            n == s@.len(),
            a < b <= n,
            forall|j: int| b <= j < n ==> is_space(s@[j]),
        decreases b,
    {
        b -= 1;
    }
    let r = s.substring_char(a, b);
    proof {
        let t = s@.subrange(a as int, n as int);
        assert(!is_space(t[0]));
        assert forall|j: int| b - a <= j < t.len() implies is_space(t[j]) by {
            assert(t[j] == s@[a + j]);
        }
        assert(!is_space(t[b - a - 1])) by {
            assert(t[b - a - 1] == s@[b - 1]);
            if b > a + 1 {
            } else {
                assert(b - 1 == a);
            }
        }
        lemma_trim_end_at(t, b - a);
        assert(r@ =~= t.subrange(0, b - a));
    }
    r
}

/// The pieces of `s` split at every occurrence of the separator `c`, the
/// separator dropped: an empty `s` is one empty piece, and `n` occurrences
/// of `c` yield `n + 1` pieces, as `str::split` does.
pub open spec fn spec_split(s: Seq<char>, c: char) -> Seq<Seq<char>>
    decreases s.len(),
{
    let i = find_char(s, c);
    if i >= s.len() {
        seq![s]
    } else {
        seq![s.subrange(0, i as int)] + spec_split(s.subrange(i + 1 as int, s.len() as int), c)
    }
}

/// A split has at least one piece, and at least two when the separator occurs.
pub proof fn lemma_split_len(s: Seq<char>, c: char)
    ensures
        spec_split(s, c).len() >= 1,
        contains_char(s, c) ==> spec_split(s, c).len() >= 2,
    decreases s.len(),
{
    lemma_find_char(s, c);
    if find_char(s, c) < s.len() {
        lemma_split_len(s.subrange(find_char(s, c) + 1 as int, s.len() as int), c);
    }
}

/// Character-by-character string equality, equivalent to equality of the views.
pub fn str_eq(a: &str, b: &str) -> (r: bool)
    ensures
        r == (a@ == b@),
{
    let na = a.unicode_len();
    let nb = b.unicode_len();
    if na != nb {
        return false;
    }
    let mut i: usize = 0;
    while i < na
        invariant
            i <= na,
            na == a@.len(),
            na == b@.len(),
            forall|j: int| 0 <= j < i ==> a@[j] == b@[j],
        decreases na - i,
    {
        if a.get_char(i) != b.get_char(i) {
            return false;
        }
        i += 1;
    }
    proof {
        assert(a@ =~= b@);
    }
    true
}

} // verus!

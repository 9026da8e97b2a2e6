//! Character and string groundwork shared by the whole crate.
//!
//! Strings are modelled as `Seq<char>`. The few operations that come
//! from outside verified code (Unicode lowercasing, the Unicode
//! alphanumeric test, collecting characters back into a `String`) are
//! isolated here behind small trusted wrappers; everything else is
//! verified against the spec functions below.

use vstd::prelude::*;
use vstd::string::*;

verus! {

/// The lowercase form of a character sequence, as `str::to_lowercase`
/// computes it. The mapping is a fixed function of the characters; its
/// table is Unicode's and is not restated here.
pub uninterp spec fn lower_of(s: Seq<char>) -> Seq<char>;

/// Whether a character is alphanumeric in the Unicode sense, as
/// `char::is_alphanumeric` decides it.
pub uninterp spec fn is_alphanum(c: char) -> bool;

/// Relies on `str::to_lowercase`: the result is a fixed function of the
/// input characters; an empty string stays empty.
#[verifier::external_body]
pub fn to_lowercase(s: &str) -> (r: String)
    ensures
        r@ == lower_of(s@),
        s@.len() == 0 ==> r@.len() == 0,
{
    s.to_lowercase()
}

/// Relies on `char::is_alphanumeric`: true exactly for Unicode letters
/// and numbers.
#[verifier::external_body]
pub fn char_is_alphanumeric(c: char) -> (r: bool)
    ensures
        r == is_alphanum(c),
{
    c.is_alphanumeric()
}

/// Relies on `String`'s `FromIterator<char>` impl: collecting yields a
/// string holding exactly the collected characters, in order.
#[verifier::external_body]
pub fn chars_to_string(v: &Vec<char>) -> (r: String)
    ensures
        r@ == v@,
{
    v.iter().collect()
}

/// The underscore predicate, as a value usable with the trim functions.
pub open spec fn underscore_p() -> spec_fn(char) -> bool {
    |c: char| c == '_'
}

/// Horizontal and vertical whitespace, as recognized inside template tags
/// and around configuration values.
pub open spec fn is_space(c: char) -> bool {
    c == ' ' || c == '\t' || c == '\r' || c == '\n'
}

/// The whitespace predicate, as a value usable with the trim functions.
pub open spec fn space_p() -> spec_fn(char) -> bool {
    |c: char| is_space(c)
}

/// Whether a character is whitespace.
pub fn is_space_char(c: char) -> (r: bool)
    ensures
        r == is_space(c),
{
    c == ' ' || c == '\t' || c == '\r' || c == '\n'
}

/// Whether two string slices hold the same characters.
pub fn str_eq(a: &str, b: &str) -> (r: bool)
    ensures
        r == (a@ == b@),
{
    let na = a.unicode_len();
    let nb = b.unicode_len();
    if na != nb {
        return false;
    }
    let mut i: usize = 0;
    while i < na
        invariant
            na == a@.len(),
            nb == b@.len(),
            na == nb,
            i <= na,
            forall|j: int| 0 <= j < i ==> a@[j] == b@[j],
        decreases na - i,
    {
        if a.get_char(i) != b.get_char(i) {
            return false;
        }
        i = i + 1;
    }
    proof {
        assert(a@ =~= b@);
    }
    true
}

/// The characters of a string, as a vector.
pub fn str_to_chars(s: &str) -> (v: Vec<char>)
    ensures
        v@ == s@,
{
    let n = s.unicode_len();
    let mut v: Vec<char> = Vec::new();
    let mut i: usize = 0;
    while i < n
        invariant
            n == s@.len(),
            i <= n,
            v@ == s@.subrange(0, i as int),
        decreases n - i,
    {
        v.push(s.get_char(i));
        i = i + 1;
        assert(v@ =~= s@.subrange(0, i as int));
    }
    assert(v@ =~= s@);
    v
}

/// `s` with its longest prefix of characters satisfying `p` removed.
pub open spec fn trim_front_if(s: Seq<char>, p: spec_fn(char) -> bool) -> Seq<char>
    decreases s.len(),
{
    if s.len() > 0 && p(s[0]) {
        trim_front_if(s.drop_first(), p)
    } else {
        s
    }
}

/// `s` with its longest suffix of characters satisfying `p` removed.
pub open spec fn trim_back_if(s: Seq<char>, p: spec_fn(char) -> bool) -> Seq<char>
    decreases s.len(),
{
    if s.len() > 0 && p(s.last()) {
        trim_back_if(s.drop_last(), p)
    } else {
        s
    }
}

/// `s` trimmed of leading and trailing characters satisfying `p`.
pub open spec fn trim_if(s: Seq<char>, p: spec_fn(char) -> bool) -> Seq<char> {
    trim_back_if(trim_front_if(s, p), p)
}

/// Characterizes `trim_front_if` by the index of the first kept character.
pub proof fn lemma_trim_front_skip(s: Seq<char>, p: spec_fn(char) -> bool, i: int)
    requires
        0 <= i <= s.len(),
        forall|j: int| 0 <= j < i ==> p(s[j]),
        i < s.len() ==> !p(s[i]),
    ensures
        trim_front_if(s, p) == s.skip(i),
    decreases i,
{
    if i == 0 {
        assert(s.skip(0) =~= s);
    } else {
        assert(p(s[0]));
        lemma_trim_front_skip(s.drop_first(), p, i - 1);
        assert(s.drop_first().skip(i - 1) =~= s.skip(i));
    }
}

/// Characterizes `trim_back_if` by the index one past the last kept character.
pub proof fn lemma_trim_back_take(s: Seq<char>, p: spec_fn(char) -> bool, i: int)
    requires
        0 <= i <= s.len(),
        forall|j: int| i <= j < s.len() ==> p(s[j]),
        i > 0 ==> !p(s[i - 1]),
    ensures
        trim_back_if(s, p) == s.take(i),
    decreases s.len() - i,
{
    if i == s.len() {
        if s.len() > 0 && p(s.last()) {
            lemma_trim_back_take(s.drop_last(), p, i - 1);
            assert(!p(s[i - 1]));
            assert(false);
        } else {
            assert(s.take(i) =~= s);
        }
    } else {
        assert(p(s.last()));
        lemma_trim_back_take(s.drop_last(), p, i);
        assert(s.drop_last().take(i) =~= s.take(i));
    }
}

/// `trim_front_if` returns a suffix whose head, if any, fails `p`.
pub proof fn lemma_trim_front_suffix(s: Seq<char>, p: spec_fn(char) -> bool)
    ensures
        ({
            let f = trim_front_if(s, p);
            &&& f.len() <= s.len()
            &&& f == s.skip(s.len() - f.len())
            &&& f.len() > 0 ==> !p(f[0])
        }),
    decreases s.len(),
{
    if s.len() > 0 && p(s[0]) {
        lemma_trim_front_suffix(s.drop_first(), p);
        let f = trim_front_if(s, p);
        assert(s.drop_first().skip(s.drop_first().len() - f.len()) =~= s.skip(s.len() - f.len()));
    } else {
        assert(s.skip(0) =~= s);
    }
}

/// `trim_back_if` returns a prefix whose last character, if any, fails `p`.
pub proof fn lemma_trim_back_prefix(s: Seq<char>, p: spec_fn(char) -> bool)
    ensures
        ({
            let b = trim_back_if(s, p);
            &&& b.len() <= s.len()
            &&& b == s.take(b.len() as int)
            &&& b.len() > 0 ==> !p(b.last())
        }),
    decreases s.len(),
{
    if s.len() > 0 && p(s.last()) {
        lemma_trim_back_prefix(s.drop_last(), p);
        let b = trim_back_if(s, p);
        assert(s.drop_last().take(b.len() as int) =~= s.take(b.len() as int));
    } else {
        assert(s.take(s.len() as int) =~= s);
    }
}

/// Whether two character vectors hold the same characters.
pub fn chars_equal(a: &Vec<char>, b: &Vec<char>) -> (r: bool)
    ensures
        r == (a@ == b@),
{
    if a.len() != b.len() {
        return false;
    }
    let mut i: usize = 0;
    while i < a.len()
        invariant
            a@.len() == b@.len(),
            i <= a@.len(),
            forall|j: int| 0 <= j < i ==> a@[j] == b@[j],
        decreases a@.len() - i,
    {
        if a[i] != b[i] {
            return false;
        }
        i = i + 1;
    }
    proof {
        assert(a@ =~= b@);
    }
    true
}

/// The characters of `v` from `from` (inclusive) to `to` (exclusive).
pub fn copy_range(v: &Vec<char>, from: usize, to: usize) -> (r: Vec<char>)
    requires
        from <= to <= v@.len(),
    ensures
        r@ == v@.subrange(from as int, to as int),
{
    let mut r: Vec<char> = Vec::new();
    let mut i: usize = from;
    while i < to
        invariant
            from <= i <= to <= v@.len(),
            r@ == v@.subrange(from as int, i as int),
        decreases to - i,
    {
        r.push(v[i]);
        i = i + 1;
        assert(r@ =~= v@.subrange(from as int, i as int));
    }
    r
}

/// Remove leading and trailing whitespace.
pub fn trim_spaces(v: &Vec<char>) -> (r: Vec<char>)
    ensures
        r@ == trim_if(v@, space_p()),
{
    let n = v.len();
    let mut start: usize = 0;
    while start < n && is_space_char(v[start])
        invariant
            n == v@.len(),
            start <= n,
            forall|j: int| 0 <= j < start ==> is_space(v@[j]),
        decreases n - start,
    {
        start = start + 1;
    }
    proof {
        assert(forall|j: int| 0 <= j < start ==> #[trigger] space_p()(v@[j]));
        lemma_trim_front_skip(v@, space_p(), start as int);
    }
    let mut end: usize = n;
    while end > start && is_space_char(v[end - 1])
        invariant
            n == v@.len(),
            start <= end <= n,
            forall|j: int| end <= j < n ==> is_space(v@[j]),
        decreases end,
    {
        end = end - 1;
    }
    let ghost tf = v@.skip(start as int);
    proof {
        assert(forall|j: int| end - start <= j < tf.len() ==> #[trigger] space_p()(tf[j]));
        lemma_trim_back_take(tf, space_p(), end - start);
    }
    let r = copy_range(v, start, end);
    proof {
        assert(tf.take(end - start) =~= v@.subrange(start as int, end as int));
    }
    r
}

/// The position of the first occurrence of `c` in `s`, if any.
pub open spec fn find_char(s: Seq<char>, c: char) -> Option<int>
    decreases s.len(),
{
    if s.len() == 0 {
        None
    } else if s[0] == c {
        Some(0)
    } else {
        match find_char(s.drop_first(), c) {
            None => None,
            Some(j) => Some(j + 1),
        }
    }
}

/// What `find_char` finds: the first occurrence, within bounds.
pub proof fn lemma_find_char_props(s: Seq<char>, c: char)
    ensures
        match find_char(s, c) {
            Some(j) => 0 <= j < s.len() && s[j] == c && forall|k: int| 0 <= k < j ==> s[k] != c,
            None => forall|k: int| 0 <= k < s.len() ==> s[k] != c,
        },
    decreases s.len(),
{
    if s.len() == 0 {
    } else if s[0] == c {
    } else {
        let t = s.drop_first();
        lemma_find_char_props(t, c);
        assert(forall|k: int| 0 <= k < t.len() ==> t[k] == #[trigger] s[k + 1]);
        match find_char(t, c) {
            Some(j) => {
                assert forall|k: int| 0 <= k < j + 1 implies s[k] != c by {
                    if k > 0 {
                        assert(t[k - 1] == s[k]);
                    }
                }
            },
            None => {
                assert forall|k: int| 0 <= k < s.len() implies s[k] != c by {
                    if k > 0 {
                        assert(t[k - 1] == s[k]);
                    }
                }
            },
        }
    }
}

/// `find_char` returns exactly the first occurrence.
pub proof fn lemma_find_char_first(s: Seq<char>, c: char, j: int)
    requires
        0 <= j < s.len(),
        s[j] == c,
        forall|k: int| 0 <= k < j ==> s[k] != c,
    ensures
        find_char(s, c) == Some(j),
    decreases j,
{
    if j > 0 {
        let t = s.drop_first();
        assert(t[j - 1] == s[j]);
        assert forall|k: int| 0 <= k < j - 1 implies t[k] != c by {
            assert(t[k] == s[k + 1]);
        }
        lemma_find_char_first(t, c, j - 1);
    }
}

/// With no occurrence, `find_char` finds nothing.
pub proof fn lemma_find_char_none(s: Seq<char>, c: char)
    requires
        forall|k: int| 0 <= k < s.len() ==> s[k] != c,
    ensures
        find_char(s, c) is None,
    decreases s.len(),
{
    if s.len() > 0 {
        let t = s.drop_first();
        assert forall|k: int| 0 <= k < t.len() implies t[k] != c by {
            assert(t[k] == s[k + 1]);
        }
        lemma_find_char_none(t, c);
    }
}

/// Scan `v` for the first occurrence of `c`.
pub fn find_char_vec(v: &Vec<char>, c: char) -> (r: Option<usize>)
    ensures
        match r {
            Some(j) => j < v@.len() && find_char(v@, c) == Some(j as int),
            None => find_char(v@, c) is None,
        },
{
    let mut j: usize = 0;
    while j < v.len()
        invariant
            j <= v@.len(),
            forall|k: int| 0 <= k < j ==> v@[k] != c,
        decreases v@.len() - j,
    {
        if v[j] == c {
            proof {
                lemma_find_char_first(v@, c, j as int);
            }
            return Some(j);
        }
        j = j + 1;
    }
    proof {
        lemma_find_char_none(v@, c);
    }
    None
}

/// The lines of a text: pieces between newline characters. A trailing
/// newline yields a final empty line; the empty text is one empty line.
pub open spec fn split_lines(s: Seq<char>) -> Seq<Seq<char>>
    decreases s.len(),
{
    match find_char(s, '\n') {
        None => seq![s],
        Some(i) => if 0 <= i < s.len() {
            seq![s.subrange(0, i)] + split_lines(s.skip(i + 1))
        } else {
            seq![s]
        },
    }
}

/// Lines joined back with newlines.
pub open spec fn join_lines(lines: Seq<Seq<char>>) -> Seq<char>
    decreases lines.len(),
{
    if lines.len() == 0 {
        Seq::empty()
    } else if lines.len() == 1 {
        lines[0]
    } else {
        lines[0] + seq!['\n'] + join_lines(lines.drop_first())
    }
}

/// Splitting and joining reproduce the text exactly: the lines carry
/// every character of the text.
pub proof fn lemma_split_join(s: Seq<char>)
    ensures
        split_lines(s).len() > 0,
        join_lines(split_lines(s)) == s,
    decreases s.len(),
{
    lemma_find_char_props(s, '\n');
    match find_char(s, '\n') {
        None => {},
        Some(i) => {
            let rest = s.skip(i + 1);
            lemma_split_join(rest);
            let ls = seq![s.subrange(0, i)] + split_lines(rest);
            assert(ls.len() >= 2);
            assert(ls[0] == s.subrange(0, i));
            assert(ls.drop_first() =~= split_lines(rest));
            assert(s.subrange(0, i) + seq!['\n'] + join_lines(split_lines(rest)) =~= s);
        },
    }
}

/// Split a text into its lines.
pub fn split_to_lines(v: &Vec<char>) -> (r: Vec<Vec<char>>)
    ensures
        r@.map_values(|l: Vec<char>| l@) == split_lines(v@),
{
    let n = v.len();
    let mut lines: Vec<Vec<char>> = Vec::new();
    let mut start: usize = 0;
    let mut i: usize = 0;
    proof {
        assert(v@.skip(0) =~= v@);
        assert(lines@.map_values(|l: Vec<char>| l@) =~= Seq::<Seq<char>>::empty());
        assert(Seq::<Seq<char>>::empty() + split_lines(v@) =~= split_lines(v@));
    }
    while i < n
        invariant
            start <= i <= n,
            n == v@.len(),
            forall|k: int| start <= k < i ==> v@[k] != '\n',
            split_lines(v@) == lines@.map_values(|l: Vec<char>| l@) + split_lines(
                v@.skip(start as int),
            ),
        decreases n - i,
    {
        if v[i] == '\n' {
            let line = copy_range(v, start, i);
            let ghost pre = lines@.map_values(|l: Vec<char>| l@);
            let ghost s = v@.skip(start as int);
            lines.push(line);
            proof {
                assert forall|k: int| 0 <= k < i - start implies s[k] != '\n' by {
                    assert(s[k] == v@[k + start]);
                }
                assert(s[i - start] == v@[i as int]);
                lemma_find_char_first(s, '\n', i - start);
                assert(s.subrange(0, i - start) =~= v@.subrange(start as int, i as int));
                assert(s.skip(i - start + 1) =~= v@.skip(i as int + 1));
                let f = |l: Vec<char>| l@;
                assert forall|k: int| 0 <= k < lines@.len() implies #[trigger] lines@.map_values(
                    f,
                )[k] == pre.push(line@)[k] by {
                    if k < pre.len() {
                        assert(lines@[k] == lines@[k]);
                    }
                }
                assert(lines@.map_values(f) =~= pre.push(line@));
                assert(pre.push(line@) + split_lines(v@.skip(i as int + 1)) =~= pre + (seq![
                    v@.subrange(start as int, i as int),
                ] + split_lines(v@.skip(i as int + 1))));
            }
            start = i + 1;
        }
        i = i + 1;
    }
    let last = copy_range(v, start, n);
    let ghost pre = lines@.map_values(|l: Vec<char>| l@);
    let ghost s = v@.skip(start as int);
    lines.push(last);
    proof {
        assert forall|k: int| 0 <= k < s.len() implies s[k] != '\n' by {
            assert(s[k] == v@[k + start]);
        }
        lemma_find_char_none(s, '\n');
        assert(split_lines(s) =~= seq![s]);
        assert(s =~= v@.subrange(start as int, n as int));
        let f = |l: Vec<char>| l@;
        assert forall|k: int| 0 <= k < lines@.len() implies #[trigger] lines@.map_values(f)[k]
            == pre.push(last@)[k] by {
            if k < pre.len() {
                assert(lines@[k] == lines@[k]);
            }
        }
        assert(lines@.map_values(f) =~= pre.push(last@));
        assert(pre.push(s) =~= pre + seq![s]);
    }
    lines
}

/// Trimming a second time changes nothing.
pub proof fn lemma_trim_if_idempotent(s: Seq<char>, p: spec_fn(char) -> bool)
    ensures
        trim_if(trim_if(s, p), p) == trim_if(s, p),
{
    let f = trim_front_if(s, p);
    lemma_trim_front_suffix(s, p);
    let t = trim_back_if(f, p);
    lemma_trim_back_prefix(f, p);
    if t.len() > 0 {
        assert(t[0] == f[0]);
        assert(!p(t[0]));
    }
    lemma_trim_front_skip(t, p, 0);
    lemma_trim_back_take(t, p, t.len() as int);
    assert(t.take(t.len() as int) =~= t);
}

} // verus!

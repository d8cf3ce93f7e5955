//! Character-level text handling: the character classes the engine splits on,
//! splitting into maximal runs, searching for substrings and trimming.
use vstd::prelude::*;

verus! {

/// The characters of `s`, in order (`str::chars` collected).
#[verifier::external_body]
pub fn str_to_chars(s: &str) -> (result: Vec<char>)
    ensures
        result@ == s@,
{
    s.chars().collect()
}

/// A `String` made of the characters `cs`, in order.
#[verifier::external_body]
pub fn chars_to_string(cs: &[char]) -> (result: String)
    ensures
        result@ == cs@,
{
    cs.iter().collect()
}

/// Whether a character is alphabetic or numeric in the sense of Unicode
/// (the result of `char::is_alphanumeric`).
pub uninterp spec fn unicode_alphanumeric(c: char) -> bool;

/// ASCII letters and digits.
pub open spec fn ascii_alphanumeric(c: char) -> bool {
    let v = c as u32;
    (0x61 <= v && v <= 0x7a) || (0x41 <= v && v <= 0x5a) || (0x30 <= v && v <= 0x39)
}

/// The Unicode `White_Space` property (PropList.txt): the characters
/// U+0009..U+000D, U+0020, U+0085, U+00A0, U+1680, U+2000..U+200A, U+2028,
/// U+2029, U+202F, U+205F and U+3000.
pub open spec fn white_space(c: char) -> bool {
    let v = c as u32;
    ||| 0x09 <= v && v <= 0x0d
    ||| v == 0x20
    ||| v == 0x85
    ||| v == 0xa0
    ||| v == 0x1680
    ||| 0x2000 <= v && v <= 0x200a
    ||| v == 0x2028
    ||| v == 0x2029
    ||| v == 0x202f
    ||| v == 0x205f
    ||| v == 0x3000
}

/// `char::is_alphanumeric`: true for characters with the Unicode `Alphabetic`
/// property or a numeric general category. Among ASCII characters these are
/// exactly the letters and the digits.
#[verifier::external_body]
pub fn char_is_alphanumeric(c: char) -> (result: bool)
    ensures
        result == unicode_alphanumeric(c),
        (c as u32) < 0x80 ==> (result == ascii_alphanumeric(c)),
{
    c.is_alphanumeric()
}

/// `char::is_whitespace`: true exactly for the characters with the Unicode
/// `White_Space` property.
#[verifier::external_body]
pub fn char_is_whitespace(c: char) -> (result: bool)
    ensures
        result == white_space(c),
{
    c.is_whitespace()
}

/// The two character classes the engine splits text by.
#[derive(Clone, Copy, Debug, PartialEq, Eq)]
pub enum CharClass {
    /// Anything but white space: maximal runs of it are the whitespace-separated fields.
    NonWhiteSpace,
    /// Alphanumeric characters, `_` and `-`: maximal runs of them are the words of a document.
    WordChar,
}

pub open spec fn in_class(class: CharClass, c: char) -> bool {
    match class {
        CharClass::NonWhiteSpace => !white_space(c),
        CharClass::WordChar => unicode_alphanumeric(c) || c == '_' || c == '-',
    }
}

pub fn class_contains(class: CharClass, c: char) -> (result: bool)
    ensures
        result == in_class(class, c),
{
    match class {
        CharClass::NonWhiteSpace => !char_is_whitespace(c),
        CharClass::WordChar => char_is_alphanumeric(c) || c == '_' || c == '-',
    }
}

/// The maximal runs of characters of `class` in `s`, left to right.
pub open spec fn runs(s: Seq<char>, class: CharClass) -> Seq<Seq<char>>
    decreases s.len(),
{
    if s.len() == 0 {
        seq![]
    } else {
        let prev = runs(s.drop_last(), class);
        let c = s.last();
        if !in_class(class, c) {
            prev
        } else if s.len() >= 2 && in_class(class, s[s.len() - 2]) {
            prev.update(prev.len() - 1, prev.last().push(c))
        } else {
            prev.push(seq![c])
        }
    }
}

/// The whitespace-separated fields of `s` (as `str::split_whitespace` gives them).
pub open spec fn fields(s: Seq<char>) -> Seq<Seq<char>> {
    runs(s, CharClass::NonWhiteSpace)
}

pub proof fn lemma_runs_nonempty_when_ends_in_class(s: Seq<char>, class: CharClass)
    requires
        s.len() > 0,
        in_class(class, s.last()),
    ensures
        runs(s, class).len() > 0,
        runs(s, class).last().len() > 0,
        runs(s, class).last().last() == s.last(),
    decreases s.len(),
{
    if s.len() >= 2 && in_class(class, s[s.len() - 2]) {
        lemma_runs_nonempty_when_ends_in_class(s.drop_last(), class);
    }
}

/// Every run is non-empty and made of characters of the class only.
pub proof fn lemma_runs_members(s: Seq<char>, class: CharClass)
    ensures
        forall|k: int|
            0 <= k < runs(s, class).len() ==> (#[trigger] runs(s, class)[k]).len() > 0,
        forall|k: int, j: int|
            0 <= k < runs(s, class).len() && 0 <= j < runs(s, class)[k].len() ==> in_class(
                class,
                #[trigger] runs(s, class)[k][j],
            ),
    decreases s.len(),
{
    if s.len() > 0 {
        lemma_runs_members(s.drop_last(), class);
        let prev = runs(s.drop_last(), class);
        let r = runs(s, class);
        if in_class(class, s.last()) && s.len() >= 2 && in_class(class, s[s.len() - 2]) {
            lemma_runs_nonempty_when_ends_in_class(s.drop_last(), class);
            assert forall|k: int| 0 <= k < r.len() implies (#[trigger] r[k]).len() > 0 by {
                if k < r.len() - 1 {
                    assert(r[k] == prev[k]);
                }
            }
            assert forall|k: int, j: int|
                0 <= k < r.len() && 0 <= j < r[k].len() implies in_class(class, #[trigger] r[k][j]) by {
                if k < r.len() - 1 {
                    assert(r[k] == prev[k]);
                } else if j < r[k].len() - 1 {
                    assert(r[k][j] == prev[k][j]);
                }
            }
        } else if in_class(class, s.last()) {
            assert forall|k: int| 0 <= k < r.len() implies (#[trigger] r[k]).len() > 0 by {
                if k < r.len() - 1 {
                    assert(r[k] == prev[k]);
                }
            }
            assert forall|k: int, j: int|
                0 <= k < r.len() && 0 <= j < r[k].len() implies in_class(class, #[trigger] r[k][j]) by {
                if k < r.len() - 1 {
                    assert(r[k] == prev[k]);
                }
            }
        }
    }
}

/// Whether every character of `s` is in `class`.
pub open spec fn all_in_class(s: Seq<char>, class: CharClass) -> bool {
    forall|i: int| 0 <= i < s.len() ==> in_class(class, #[trigger] s[i])
}

/// A non-empty run of characters of the class is its own only run.
pub proof fn lemma_runs_of_run(w: Seq<char>, class: CharClass)
    requires
        w.len() > 0,
        all_in_class(w, class),
    ensures
        runs(w, class) == seq![w],
    decreases w.len(),
{
    assert(in_class(class, w[w.len() - 1]));
    if w.len() == 1 {
        assert(w.drop_last() =~= Seq::<char>::empty());
        assert(runs(w.drop_last(), class) =~= Seq::<Seq<char>>::empty());
        assert(seq![w.last()] =~= w);
        assert(Seq::<Seq<char>>::empty().push(seq![w.last()]) =~= seq![w]);
    } else {
        let p = w.drop_last();
        assert(all_in_class(p, class)) by {
            assert forall|i: int| 0 <= i < p.len() implies in_class(class, #[trigger] p[i]) by {
                assert(p[i] == w[i]);
            }
        }
        lemma_runs_of_run(p, class);
        assert(in_class(class, w[w.len() - 2]));
        assert(in_class(class, w.last()));
        assert(p.push(w.last()) =~= w);
        assert(seq![p].update(0, p.push(w.last())) =~= seq![w]);
    }
}

/// A run followed by a character outside the class gives just the run.
pub proof fn lemma_runs_of_run_then(w: Seq<char>, c: char, class: CharClass)
    requires
        w.len() > 0,
        all_in_class(w, class),
        !in_class(class, c),
    ensures
        runs(w.push(c), class) == seq![w],
{
    lemma_runs_of_run(w, class);
    assert(w.push(c).drop_last() =~= w);
}

/// Text that starts after a character outside the class (or at the start)
/// adds its own runs to those before it.
pub proof fn lemma_runs_append(a: Seq<char>, b: Seq<char>, class: CharClass)
    requires
        a.len() == 0 || !in_class(class, a.last()),
    ensures
        runs(a + b, class) == runs(a, class) + runs(b, class),
    decreases b.len(),
{
    if b.len() == 0 {
        assert(a + b =~= a);
        assert(runs(a, class) + runs(b, class) =~= runs(a, class));
    } else {
        let bp = b.drop_last();
        let s = a + b;
        lemma_runs_append(a, bp, class);
        assert(s.drop_last() =~= a + bp);
        assert(s.last() == b.last());
        let c = b.last();
        let ra = runs(a, class);
        let rp = runs(bp, class);
        if !in_class(class, c) {
        } else if b.len() >= 2 && in_class(class, b[b.len() - 2]) {
            assert(s[s.len() - 2] == b[b.len() - 2]);
            lemma_runs_nonempty_when_ends_in_class(bp, class);
            assert((ra + rp).update((ra + rp).len() - 1, (ra + rp).last().push(c)) =~= ra + rp.update(
                rp.len() - 1,
                rp.last().push(c),
            ));
        } else {
            if s.len() >= 2 {
                if b.len() >= 2 {
                    assert(s[s.len() - 2] == b[b.len() - 2]);
                } else {
                    assert(s[s.len() - 2] == a.last());
                }
            }
            if b.len() == 1 {
                assert(bp =~= Seq::<char>::empty());
            }
            assert((ra + rp).push(seq![c]) =~= ra + rp.push(seq![c]));
        }
    }
}

/// The character sequences held by a sequence of strings.
pub open spec fn strings_view(v: Seq<String>) -> Seq<Seq<char>> {
    v.map_values(|x: String| x@)
}

/// The character sequences held by a vector of character vectors.
pub open spec fn seqs_of(v: Seq<Vec<char>>) -> Seq<Seq<char>> {
    v.map_values(|x: Vec<char>| x@)
}

/// Splits `s` into its maximal runs of characters of `class`.
pub fn split_runs(s: &[char], class: CharClass) -> (result: Vec<Vec<char>>)
    ensures
        seqs_of(result@) == runs(s@, class),
{
    let mut out: Vec<Vec<char>> = Vec::new();
    let mut cur: Vec<char> = Vec::new();
    let mut i: usize = 0;
    while i < s.len()
        invariant
            i <= s@.len(),
            cur@.len() > 0 <==> (i > 0 && in_class(class, s@[i - 1])),
            cur@.len() == 0 ==> seqs_of(out@) == runs(s@.take(i as int), class),
            cur@.len() > 0 ==> seqs_of(out@).push(cur@) == runs(s@.take(i as int), class),
        decreases s@.len() - i,
    {
        let c = s[i];
        let ghost pre = s@.take(i as int);
        let ghost post = s@.take(i + 1);
        assert(post.drop_last() =~= pre);
        assert(post.last() == c);
        if class_contains(class, c) {
            let ghost before = seqs_of(out@);
            if cur.len() > 0 {
                assert(post[post.len() - 2] == s@[i - 1]);
                let ghost r = runs(pre, class);
                assert(r =~= before.push(cur@));
                cur.push(c);
                assert(before.push(cur@) =~= r.update(r.len() - 1, r.last().push(c)));
            } else {
                cur.push(c);
                assert(cur@ =~= seq![c]);
            }
        } else {
            if cur.len() > 0 {
                let ghost before = seqs_of(out@);
                out.push(cur);
                assert(seqs_of(out@) =~= before.push(cur@));
                cur = Vec::new();
            }
        }
        i = i + 1;
    }
    assert(s@.take(s@.len() as int) =~= s@);
    if cur.len() > 0 {
        let ghost before = seqs_of(out@);
        out.push(cur);
        assert(seqs_of(out@) =~= before.push(cur@));
    }
    out
}

/// The pieces of `s` between the occurrences of `sep`, empty pieces
/// included (as `str::split` with a character gives them).
pub open spec fn split_on(s: Seq<char>, sep: char) -> Seq<Seq<char>>
    decreases s.len(),
{
    if s.len() == 0 {
        seq![seq![]]
    } else {
        let r = split_on(s.drop_last(), sep);
        if s.last() == sep {
            r.push(seq![])
        } else {
            r.update(r.len() - 1, r.last().push(s.last()))
        }
    }
}

pub proof fn lemma_split_on_len(s: Seq<char>, sep: char)
    ensures
        split_on(s, sep).len() >= 1,
    decreases s.len(),
{
    if s.len() > 0 {
        lemma_split_on_len(s.drop_last(), sep);
    }
}

/// Text without `sep` is one piece.
pub proof fn lemma_split_on_without_sep(s: Seq<char>, sep: char)
    requires
        forall|i: int| 0 <= i < s.len() ==> s[i] != sep,
    ensures
        split_on(s, sep) == seq![s],
    decreases s.len(),
{
    if s.len() > 0 {
        lemma_split_on_without_sep(s.drop_last(), sep);
        assert(s.drop_last().push(s.last()) =~= s);
        assert(seq![s.drop_last()].update(0, s.drop_last().push(s.last())) =~= seq![s]);
    } else {
        assert(s =~= Seq::<char>::empty());
    }
}

/// Text that follows a `sep` adds its pieces after those before the `sep`.
pub proof fn lemma_split_on_append(a: Seq<char>, b: Seq<char>, sep: char)
    requires
        a.len() > 0,
        a.last() == sep,
    ensures
        split_on(a + b, sep) == split_on(a, sep).drop_last() + split_on(b, sep),
    decreases b.len(),
{
    let sa = split_on(a, sep);
    assert(sa == split_on(a.drop_last(), sep).push(seq![]));
    if b.len() == 0 {
        assert(a + b =~= a);
        assert(sa.drop_last() + seq![seq![]] =~= sa);
    } else {
        let bp = b.drop_last();
        lemma_split_on_append(a, bp, sep);
        lemma_split_on_len(bp, sep);
        assert((a + b).drop_last() =~= a + bp);
        assert((a + b).last() == b.last());
        let x = sa.drop_last();
        let y = split_on(bp, sep);
        if b.last() == sep {
            assert((x + y).push(seq![]) =~= x + y.push(seq![]));
        } else {
            assert((x + y).update((x + y).len() - 1, (x + y).last().push(b.last())) =~= x + y.update(
                y.len() - 1,
                y.last().push(b.last()),
            ));
        }
    }
}

/// Splits `s` at every `sep`.
pub fn split_on_exec(s: &[char], sep: char) -> (result: Vec<Vec<char>>)
    ensures
        seqs_of(result@) == split_on(s@, sep),
{
    let mut out: Vec<Vec<char>> = Vec::new();
    let mut cur: Vec<char> = Vec::new();
    let mut i: usize = 0;
    assert(s@.take(0) =~= Seq::<char>::empty());
    assert(seqs_of(out@).push(cur@) =~= split_on(s@.take(0), sep));
    while i < s.len()
        invariant
            i <= s@.len(),
            seqs_of(out@).push(cur@) == split_on(s@.take(i as int), sep),
        decreases s@.len() - i,
    {
        let c = s[i];
        let ghost pre = s@.take(i as int);
        let ghost post = s@.take(i + 1);
        assert(post.drop_last() =~= pre);
        assert(post.last() == c);
        let ghost before = seqs_of(out@);
        if c == sep {
            out.push(cur);
            assert(seqs_of(out@) =~= before.push(cur@));
            cur = Vec::new();
            assert(seqs_of(out@).push(cur@) =~= split_on(post, sep));
        } else {
            let ghost r = split_on(pre, sep);
            cur.push(c);
            assert(seqs_of(out@).push(cur@) =~= r.update(r.len() - 1, r.last().push(c)));
        }
        i = i + 1;
    }
    assert(s@.take(s@.len() as int) =~= s@);
    let ghost before = seqs_of(out@);
    out.push(cur);
    assert(seqs_of(out@) =~= before.push(cur@));
    out
}

/// The pieces of `list` joined with `sep` between them (as `join` on a slice of strings gives it).
pub open spec fn join(list: Seq<Seq<char>>, sep: Seq<char>) -> Seq<char>
    decreases list.len(),
{
    if list.len() == 0 {
        seq![]
    } else if list.len() == 1 {
        list[0]
    } else {
        join(list.drop_last(), sep) + sep + list.last()
    }
}

/// Whether `pat` occurs in `s` starting at index `i`.
pub open spec fn occurs_at(s: Seq<char>, pat: Seq<char>, i: int) -> bool {
    0 <= i && i + pat.len() <= s.len() && s.subrange(i, i + pat.len()) == pat
}

/// The first index at or after `from` where `pat` occurs in `s`.
pub open spec fn find_from(s: Seq<char>, pat: Seq<char>, from: int) -> Option<int>
    decreases s.len() + 1 - from,
{
    if from < 0 || from + pat.len() > s.len() {
        None
    } else if occurs_at(s, pat, from) {
        Some(from)
    } else {
        find_from(s, pat, from + 1)
    }
}

/// The first index where `pat` occurs in `s` (as `str::find` gives it, counted in characters).
pub open spec fn find(s: Seq<char>, pat: Seq<char>) -> Option<int> {
    find_from(s, pat, 0)
}

pub proof fn lemma_find_from_properties(s: Seq<char>, pat: Seq<char>, from: int)
    requires
        0 <= from,
    ensures
        find_from(s, pat, from) matches Some(i) ==> from <= i && occurs_at(s, pat, i) && (
        forall|j: int| from <= j < i ==> !occurs_at(s, pat, j)),
        find_from(s, pat, from) is None ==> forall|j: int| from <= j ==> !occurs_at(s, pat, j),
    decreases s.len() + 1 - from,
{
    if from + pat.len() > s.len() {
    } else if occurs_at(s, pat, from) {
    } else {
        lemma_find_from_properties(s, pat, from + 1);
    }
}

pub fn occurs_at_exec(s: &[char], pat: &[char], i: usize) -> (result: bool)
    ensures
        result == occurs_at(s@, pat@, i as int),
{
    if i > s.len() || pat.len() > s.len() - i {
        return false;
    }
    let n = s.len();
    let mut k: usize = 0;
    while k < pat.len()
        invariant
            n == s@.len(),
            i + pat@.len() <= s@.len(),
            k <= pat@.len(),
            forall|j: int| 0 <= j < k ==> s@[i + j] == pat@[j],
        decreases pat@.len() - k,
    {
        assert(i + k < n);
        if s[i + k] != pat[k] {
            assert(s@.subrange(i as int, i + pat@.len())[k as int] != pat@[k as int]);
            return false;
        }
        k = k + 1;
    }
    assert(s@.subrange(i as int, i + pat@.len()) =~= pat@);
    true
}

/// `str::find` with a literal pattern, in character indices.
pub fn find_exec(s: &[char], pat: &[char]) -> (result: Option<usize>)
    ensures
        match result {
            Some(i) => find(s@, pat@) == Some(i as int),
            None => find(s@, pat@) is None,
        },
{
    let mut i: usize = 0;
    while i < s.len()
        invariant
            i <= s@.len(),
            find(s@, pat@) == find_from(s@, pat@, i as int),
        decreases s@.len() - i,
    {
        if pat.len() > s.len() - i {
            return None;
        }
        if occurs_at_exec(s, pat, i) {
            return Some(i);
        }
        i = i + 1;
    }
    if pat.len() == 0 {
        assert(s@.subrange(i as int, i as int) =~= pat@);
        Some(i)
    } else {
        None
    }
}

/// Whether `s` starts with `pat`.
pub fn starts_with(s: &[char], pat: &[char]) -> (result: bool)
    ensures
        result == occurs_at(s@, pat@, 0),
{
    occurs_at_exec(s, pat, 0)
}

/// Whether two character sequences are equal.
pub fn chars_eq(a: &[char], b: &[char]) -> (result: bool)
    ensures
        result == (a@ == b@),
{
    if a.len() != b.len() {
        return false;
    }
    let r = occurs_at_exec(a, b, 0);
    assert(a@.subrange(0, b@.len() as int) =~= a@);
    r
}

/// Appends the characters `s` to `out`.
pub fn push_all(out: &mut Vec<char>, s: &[char])
    ensures
        final(out)@ == old(out)@ + s@,
{
    let mut i: usize = 0;
    while i < s.len()
        invariant
            i <= s@.len(),
            out@ == old(out)@ + s@.take(i as int),
        decreases s@.len() - i,
    {
        out.push(s[i]);
        assert(out@ =~= old(out)@ + s@.take(i + 1));
        i = i + 1;
    }
    assert(s@.take(s@.len() as int) =~= s@);
}

/// Appends the characters of `s` to `out`.
pub fn push_str(out: &mut Vec<char>, s: &str)
    ensures
        final(out)@ == old(out)@ + s@,
{
    let cs = str_to_chars(s);
    push_all(out, cs.as_slice());
}

/// The characters of `s` from `from` up to `to`.
pub fn slice_chars(s: &[char], from: usize, to: usize) -> (result: Vec<char>)
    requires
        from <= to <= s@.len(),
    ensures
        result@ == s@.subrange(from as int, to as int),
{
    let mut out: Vec<char> = Vec::new();
    let mut i = from;
    while i < to
        invariant
            from <= i <= to <= s@.len(),
            out@ == s@.subrange(from as int, i as int),
        decreases to - i,
    {
        out.push(s[i]);
        assert(out@ =~= s@.subrange(from as int, i + 1));
        i = i + 1;
    }
    out
}

/// The last index of `c` in `s` (as `str::rfind` with a character gives it, counted in characters).
pub open spec fn rfind_char(s: Seq<char>, c: char) -> Option<int>
    decreases s.len(),
{
    if s.len() == 0 {
        None
    } else if s.last() == c {
        Some(s.len() - 1)
    } else {
        rfind_char(s.drop_last(), c)
    }
}

pub proof fn lemma_rfind_char_bounds(s: Seq<char>, c: char)
    ensures
        rfind_char(s, c) matches Some(i) ==> 0 <= i < s.len() && s[i] == c,
    decreases s.len(),
{
    if s.len() > 0 && s.last() != c {
        lemma_rfind_char_bounds(s.drop_last(), c);
    }
}

/// The last `c` of `a`, `c`, `b` is the one after `a` when `b` has no `c`.
pub proof fn lemma_rfind_char_before(a: Seq<char>, c: char, b: Seq<char>)
    requires
        forall|i: int| 0 <= i < b.len() ==> b[i] != c,
    ensures
        rfind_char(a.push(c) + b, c) == Some(a.len() as int),
    decreases b.len(),
{
    let s = a.push(c) + b;
    if b.len() == 0 {
        assert(s =~= a.push(c));
    } else {
        lemma_rfind_char_before(a, c, b.drop_last());
        assert(s.drop_last() =~= a.push(c) + b.drop_last());
        assert(s.last() == b.last());
    }
}

pub fn rfind_char_exec(s: &[char], c: char) -> (result: Option<usize>)
    ensures
        match result {
            Some(i) => rfind_char(s@, c) == Some(i as int),
            None => rfind_char(s@, c) is None,
        },
{
    let mut i: usize = s.len();
    assert(s@.take(i as int) =~= s@);
    while i > 0
        invariant
            i <= s@.len(),
            rfind_char(s@, c) == rfind_char(s@.take(i as int), c),
        decreases i,
    {
        let ghost t = s@.take(i as int);
        assert(t.drop_last() =~= s@.take(i - 1));
        if s[i - 1] == c {
            return Some(i - 1);
        }
        i = i - 1;
    }
    None
}

/// `s` without white space at its start.
pub open spec fn trim_start(s: Seq<char>) -> Seq<char>
    decreases s.len(),
{
    if s.len() > 0 && white_space(s[0]) {
        trim_start(s.drop_first())
    } else {
        s
    }
}

/// `s` without white space at its end.
pub open spec fn trim_end(s: Seq<char>) -> Seq<char>
    decreases s.len(),
{
    if s.len() > 0 && white_space(s.last()) {
        trim_end(s.drop_last())
    } else {
        s
    }
}

/// `s` without white space at either end (as `str::trim` gives it).
pub open spec fn trim(s: Seq<char>) -> Seq<char> {
    trim_end(trim_start(s))
}

pub fn trim_exec(s: &[char]) -> (result: Vec<char>)
    ensures
        result@ == trim(s@),
{
    let mut lo: usize = 0;
    assert(s@.subrange(0, s@.len() as int) =~= s@);
    while lo < s.len() && char_is_whitespace(s[lo])
        invariant
            lo <= s@.len(),
            trim_start(s@) == trim_start(s@.subrange(lo as int, s@.len() as int)),
        decreases s@.len() - lo,
    {
        let ghost t = s@.subrange(lo as int, s@.len() as int);
        assert(t.drop_first() =~= s@.subrange(lo + 1, s@.len() as int));
        lo = lo + 1;
    }
    let ghost start = s@.subrange(lo as int, s@.len() as int);
    assert(trim_start(start) == start);
    let mut hi: usize = s.len();
    while hi > lo && char_is_whitespace(s[hi - 1])
        invariant
            lo <= hi <= s@.len(),
            trim(s@) == trim_end(s@.subrange(lo as int, hi as int)),
        decreases hi - lo,
    {
        let ghost t = s@.subrange(lo as int, hi as int);
        assert(t.drop_last() =~= s@.subrange(lo as int, hi - 1));
        hi = hi - 1;
    }
    slice_chars(s, lo, hi)
}

} // verus!

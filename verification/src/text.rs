//! Character-sequence utilities shared by the rest of the library: the
//! standard-library string operations that the display and parsing rules
//! rely on, each stated over `Seq<char>` and implemented over `Vec<char>`.

use vstd::prelude::*;

verus! {

broadcast use vstd::string::group_string_axioms;

// ---------------------------------------------------------------------------
// Conversions between `str`/`String` and `Vec<char>`
// ---------------------------------------------------------------------------

/// The characters of `s`, in order.
pub fn chars_of(s: &str) -> (v: Vec<char>)
    ensures
        v@ == s@,
{
    let mut v: Vec<char> = Vec::new();
    for c in iter: s.chars()
        invariant
            v@ == iter.seq().take(iter.index()),
            iter.seq() == s@,
    {
        v.push(c);
    }
    v
}

/// Appends one character to a `String` (`String::push`).
#[verifier::external_body]
pub(crate) fn push_char(s: &mut String, c: char)
    ensures
        final(s)@ == old(s)@.push(c),
{
    s.push(c);
}

/// A `String` holding exactly the characters of `v[from..to]`.
pub fn string_from_range(v: &Vec<char>, from: usize, to: usize) -> (s: String)
    requires
        from <= to <= v.len(),
    ensures
        s@ == v@.subrange(from as int, to as int),
{
    let mut s = String::new();
    let mut i = from;
    while i < to
        invariant
            from <= i <= to <= v.len(),
            s@ == v@.subrange(from as int, i as int),
        decreases to - i,
    {
        push_char(&mut s, v[i]);
        proof {
            assert(v@.subrange(from as int, i + 1) =~= v@.subrange(from as int, i as int).push(v@[i as int]));
        }
        i = i + 1;
    }
    s
}

/// A `String` holding exactly the characters of `v`.
pub fn string_of(v: &Vec<char>) -> (s: String)
    ensures
        s@ == v@,
{
    let s = string_from_range(v, 0, v.len());
    proof {
        assert(v@.subrange(0, v@.len() as int) =~= v@);
    }
    s
}

/// Appends the characters of `src` to the vector `dst`.
pub fn append_chars(dst: &mut Vec<char>, src: &Vec<char>)
    ensures
        final(dst)@ == old(dst)@ + src@,
{
    let mut i: usize = 0;
    while i < src.len()
        invariant
            i <= src.len(),
            dst@ == old(dst)@ + src@.take(i as int),
        decreases src.len() - i,
    {
        dst.push(src[i]);
        proof {
            assert(src@.take(i + 1) =~= src@.take(i as int).push(src@[i as int]));
        }
        i = i + 1;
    }
    proof {
        assert(src@.take(src@.len() as int) =~= src@);
    }
}

/// Appends the characters of `src` to the vector `dst`.
pub fn append_str(dst: &mut Vec<char>, src: &str)
    ensures
        final(dst)@ == old(dst)@ + src@,
{
    let chars = chars_of(src);
    append_chars(dst, &chars);
}

// ---------------------------------------------------------------------------
// Whitespace and trimming (`char::is_whitespace`, `str::trim` and friends)
// ---------------------------------------------------------------------------

/// `char::is_whitespace`: the characters with the Unicode `White_Space`
/// property.
pub open spec fn is_white_space(c: char) -> bool {
    let u = c as u32;
    ||| 0x09 <= u <= 0x0D
    ||| u == 0x20
    ||| u == 0x85
    ||| u == 0xA0
    ||| u == 0x1680
    ||| 0x2000 <= u <= 0x200A
    ||| u == 0x2028
    ||| u == 0x2029
    ||| u == 0x202F
    ||| u == 0x205F
    ||| u == 0x3000
}

/// Decides `is_white_space`.
pub fn is_whitespace_char(c: char) -> (b: bool)
    ensures
        b == is_white_space(c),
{
    let u = c as u32;
    (0x09 <= u && u <= 0x0D) || u == 0x20 || u == 0x85 || u == 0xA0 || u == 0x1680 || (0x2000
        <= u && u <= 0x200A) || u == 0x2028 || u == 0x2029 || u == 0x202F || u == 0x205F || u
        == 0x3000
}

/// Every character of `s` is whitespace (so `s.trim()` is empty).
pub open spec fn all_white_space(s: Seq<char>) -> bool {
    forall|i: int| 0 <= i < s.len() ==> #[trigger] is_white_space(s[i])
}

/// `str::trim_start`.
pub open spec fn trim_start(s: Seq<char>) -> Seq<char>
    decreases s.len(),
{
    if s.len() > 0 && is_white_space(s[0]) {
        trim_start(s.drop_first())
    } else {
        s
    }
}

/// `str::trim_end`.
pub open spec fn trim_end(s: Seq<char>) -> Seq<char>
    decreases s.len(),
{
    if s.len() > 0 && is_white_space(s.last()) {
        trim_end(s.drop_last())
    } else {
        s
    }
}

/// `str::trim`.
pub open spec fn trim(s: Seq<char>) -> Seq<char> {
    trim_end(trim_start(s))
}

/// If the first `i` characters are whitespace and the next one is not (or
/// there is none), trimming the start removes exactly those `i`.
pub proof fn lemma_trim_start_at(s: Seq<char>, i: int)
    requires
        0 <= i <= s.len(),
        forall|k: int| 0 <= k < i ==> #[trigger] is_white_space(s[k]),
        i == s.len() || !is_white_space(s[i]),
    ensures
        trim_start(s) == s.skip(i),
    decreases i,
{
    if i == 0 {
        assert(s.skip(0) =~= s);
    } else {
        lemma_trim_start_at(s.drop_first(), i - 1);
        assert(s.drop_first().skip(i - 1) =~= s.skip(i));
    }
}

/// If the last `s.len() - j` characters are whitespace and the one before is
/// not (or there is none), trimming the end keeps exactly `s[..j]`.
pub proof fn lemma_trim_end_at(s: Seq<char>, j: int)
    requires
        0 <= j <= s.len(),
        forall|k: int| j <= k < s.len() ==> #[trigger] is_white_space(s[k]),
        j == 0 || !is_white_space(s[j - 1]),
    ensures
        trim_end(s) == s.take(j),
    decreases s.len() - j,
{
    if j == s.len() {
        assert(s.take(j) =~= s);
    } else {
        lemma_trim_end_at(s.drop_last(), j);
        assert(s.drop_last().take(j) =~= s.take(j));
    }
}

/// Trimming removes nothing but leading and trailing whitespace.
pub proof fn lemma_trim_all_white_space(s: Seq<char>)
    ensures
        trim(s).len() == 0 <==> all_white_space(s),
        trim_start(s).len() == 0 <==> all_white_space(s),
    decreases s.len(),
{
    if s.len() > 0 {
        lemma_trim_all_white_space(s.drop_first());
        if is_white_space(s[0]) {
            assert(all_white_space(s) <==> all_white_space(s.drop_first())) by {
                if all_white_space(s.drop_first()) {
                    assert forall|i: int| 0 <= i < s.len() implies #[trigger] is_white_space(s[i]) by {
                        if i > 0 {
                            assert(s[i] == s.drop_first()[i - 1]);
                        }
                    }
                }
                if all_white_space(s) {
                    assert forall|i: int| 0 <= i < s.drop_first().len() implies #[trigger] is_white_space(
                        s.drop_first()[i],
                    ) by {
                        assert(s.drop_first()[i] == s[i + 1]);
                    }
                }
            }
        } else {
            lemma_trim_end_nonblank(s);
        }
    }
}

proof fn lemma_trim_end_nonblank(s: Seq<char>)
    requires
        s.len() > 0,
        !is_white_space(s[0]),
    ensures
        trim_end(s).len() > 0,
    decreases s.len(),
{
    if s.len() > 1 && is_white_space(s.last()) {
        lemma_trim_end_nonblank(s.drop_last());
    }
}

/// The index of the first character of `v[from..to]` that is not
/// whitespace, or `to` when there is none.
pub fn skip_white_space(v: &Vec<char>, from: usize, to: usize) -> (i: usize)
    requires
        from <= to <= v.len(),
    ensures
        from <= i <= to,
        forall|k: int| from <= k < i ==> #[trigger] is_white_space(v@[k]),
        i == to || !is_white_space(v@[i as int]),
{
    let mut i = from;
    while i < to && is_whitespace_char(v[i])
        invariant
            from <= i <= to <= v.len(),
            forall|k: int| from <= k < i ==> #[trigger] is_white_space(v@[k]),
        decreases to - i,
    {
        i = i + 1;
    }
    i
}

/// The end of `v[from..to]` once its trailing whitespace is dropped.
pub fn skip_white_space_back(v: &Vec<char>, from: usize, to: usize) -> (j: usize)
    requires
        from <= to <= v.len(),
    ensures
        from <= j <= to,
        forall|k: int| j <= k < to ==> #[trigger] is_white_space(v@[k]),
        j == from || !is_white_space(v@[j - 1]),
{
    let mut j = to;
    while j > from && is_whitespace_char(v[j - 1])
        invariant
            from <= j <= to <= v.len(),
            forall|k: int| j <= k < to ==> #[trigger] is_white_space(v@[k]),
        decreases j - from,
    {
        j = j - 1;
    }
    j
}

/// `v.trim()` as a vector.
pub fn trim_chars(v: &Vec<char>) -> (r: Vec<char>)
    ensures
        r@ == trim(v@),
{
    let i = skip_white_space(v, 0, v.len());
    let j = skip_white_space_back(v, i, v.len());
    proof {
        lemma_trim_start_at(v@, i as int);
        let t = v@.skip(i as int);
        assert forall|k: int| j - i <= k < t.len() implies #[trigger] is_white_space(t[k]) by {
            assert(t[k] == v@[k + i]);
        }
        if j > i {
            assert(t[j - i - 1] == v@[j - 1]);
        }
        lemma_trim_end_at(t, j - i);
        assert(t.take(j - i) =~= v@.subrange(i as int, j as int));
    }
    let mut r: Vec<char> = Vec::new();
    let mut k = i;
    while k < j
        invariant
            i <= k <= j <= v.len(),
            r@ == v@.subrange(i as int, k as int),
        decreases j - k,
    {
        r.push(v[k]);
        proof {
            assert(v@.subrange(i as int, k + 1) =~= v@.subrange(i as int, k as int).push(v@[k as int]));
        }
        k = k + 1;
    }
    r
}

/// Decides `all_white_space`, that is whether `s.trim()` is empty.
pub fn is_blank(v: &Vec<char>) -> (b: bool)
    ensures
        b == all_white_space(v@),
{
    let i = skip_white_space(v, 0, v.len());
    i == v.len()
}

/// Decides whether `s.trim()` is empty.
pub fn str_is_blank(s: &str) -> (b: bool)
    ensures
        b == all_white_space(s@),
{
    let v = chars_of(s);
    is_blank(&v)
}


/// Drops every leading `c`.
pub open spec fn trim_char_start(s: Seq<char>, c: char) -> Seq<char>
    decreases s.len(),
{
    if s.len() > 0 && s[0] == c {
        trim_char_start(s.drop_first(), c)
    } else {
        s
    }
}

/// Drops every trailing `c`.
pub open spec fn trim_char_end(s: Seq<char>, c: char) -> Seq<char>
    decreases s.len(),
{
    if s.len() > 0 && s.last() == c {
        trim_char_end(s.drop_last(), c)
    } else {
        s
    }
}

/// `str::trim_matches` with a character pattern.
pub open spec fn trim_char(s: Seq<char>, c: char) -> Seq<char> {
    trim_char_end(trim_char_start(s, c), c)
}

/// `v.trim_matches(c)` as a vector.
pub fn trim_matches_char(v: &Vec<char>, c: char) -> (r: Vec<char>)
    ensures
        r@ == trim_char(v@, c),
{
    let mut i: usize = 0;
    proof {
        assert(v@.skip(0) =~= v@);
    }
    while i < v.len() && v[i] == c
        invariant
            i <= v.len(),
            trim_char_start(v@, c) == trim_char_start(v@.skip(i as int), c),
        decreases v.len() - i,
    {
        proof {
            assert(v@.skip(i as int).drop_first() =~= v@.skip(i + 1));
        }
        i = i + 1;
    }
    let mut j: usize = v.len();
    proof {
        assert(v@.subrange(i as int, j as int) =~= v@.skip(i as int));
    }
    while j > i && v[j - 1] == c
        invariant
            i <= j <= v.len(),
            trim_char_end(trim_char_start(v@, c), c) == trim_char_end(v@.subrange(i as int, j as int), c),
        decreases j - i,
    {
        proof {
            assert(v@.subrange(i as int, j as int).drop_last() =~= v@.subrange(i as int, j - 1));
        }
        j = j - 1;
    }
    sub_chars(v, i, j)
}

// ---------------------------------------------------------------------------
// Prefixes and suffixes
// ---------------------------------------------------------------------------

/// `s` begins with `p`.
pub open spec fn has_prefix(s: Seq<char>, p: Seq<char>) -> bool {
    p.len() <= s.len() && s.take(p.len() as int) == p
}

/// `s` ends with `p`.
pub open spec fn has_suffix(s: Seq<char>, p: Seq<char>) -> bool {
    p.len() <= s.len() && s.skip(s.len() - p.len()) == p
}

/// Decides whether `v[at..]` begins with `p`.
pub fn matches_at(v: &Vec<char>, at: usize, p: &Vec<char>) -> (b: bool)
    requires
        at <= v.len(),
    ensures
        b == has_prefix(v@.skip(at as int), p@),
{
    if p.len() > v.len() - at {
        return false;
    }
    let mut k: usize = 0;
    while k < p.len()
        invariant
            k <= p.len() <= v.len() - at,
            forall|m: int| 0 <= m < k ==> v@[at + m] == p@[m],
        decreases p.len() - k,
    {
        if v[at + k] != p[k] {
            proof {
                assert(v@.skip(at as int).take(p@.len() as int)[k as int] != p@[k as int]);
            }
            return false;
        }
        k = k + 1;
    }
    proof {
        assert(v@.skip(at as int).take(p@.len() as int) =~= p@);
    }
    true
}

/// Decides whether two character vectors are equal.
pub fn chars_equal(a: &Vec<char>, b: &Vec<char>) -> (eq: bool)
    ensures
        eq == (a@ == b@),
{
    if a.len() != b.len() {
        return false;
    }
    let mut k: usize = 0;
    while k < a.len()
        invariant
            k <= a.len() == b.len(),
            forall|m: int| 0 <= m < k ==> a@[m] == b@[m],
        decreases a.len() - k,
    {
        if a[k] != b[k] {
            return false;
        }
        k = k + 1;
    }
    proof {
        assert(a@ =~= b@);
    }
    true
}

/// Decides `has_prefix(v, p)`.
pub fn starts_with_chars(v: &Vec<char>, p: &Vec<char>) -> (b: bool)
    ensures
        b == has_prefix(v@, p@),
{
    proof {
        assert(v@.skip(0) =~= v@);
    }
    matches_at(v, 0, p)
}

/// Decides `has_suffix(v, p)`.
pub fn ends_with_chars(v: &Vec<char>, p: &Vec<char>) -> (b: bool)
    ensures
        b == has_suffix(v@, p@),
{
    if p.len() > v.len() {
        return false;
    }
    let at = v.len() - p.len();
    let b = matches_at(v, at, p);
    proof {
        assert(v@.skip(at as int).take(p@.len() as int) =~= v@.skip(at as int));
    }
    b
}

/// The characters of `v[from..to]`.
pub fn sub_chars(v: &Vec<char>, from: usize, to: usize) -> (r: Vec<char>)
    requires
        from <= to <= v.len(),
    ensures
        r@ == v@.subrange(from as int, to as int),
{
    let mut r: Vec<char> = Vec::new();
    let mut k = from;
    while k < to
        invariant
            from <= k <= to <= v.len(),
            r@ == v@.subrange(from as int, k as int),
        decreases to - k,
    {
        r.push(v[k]);
        proof {
            assert(v@.subrange(from as int, k + 1) =~= v@.subrange(from as int, k as int).push(
                v@[k as int],
            ));
        }
        k = k + 1;
    }
    r
}

/// The character sequences held by a vector of character vectors.
pub open spec fn char_views(v: Seq<Vec<char>>) -> Seq<Seq<char>> {
    v.map_values(|x: Vec<char>| x@)
}

/// The character sequences held by a vector of strings.
pub open spec fn string_views(v: Seq<String>) -> Seq<Seq<char>> {
    v.map_values(|x: String| x@)
}

/// The character sequence an optional string holds.
pub open spec fn opt_view(o: Option<String>) -> Option<Seq<char>> {
    match o {
        Some(s) => Some(s@),
        None => None,
    }
}

// ---------------------------------------------------------------------------
// Splitting (`str::split`, `str::lines`, `str::split_whitespace`)
// ---------------------------------------------------------------------------

/// The pieces of `s` separated by `c`, with `cur` the start of the first
/// piece.
pub open spec fn split_char_from(s: Seq<char>, c: char, cur: Seq<char>) -> Seq<Seq<char>>
    decreases s.len(),
{
    if s.len() == 0 {
        seq![cur]
    } else if s[0] == c {
        seq![cur] + split_char_from(s.drop_first(), c, seq![])
    } else {
        split_char_from(s.drop_first(), c, cur.push(s[0]))
    }
}

/// `str::split` with a character pattern.
pub open spec fn split_char(s: Seq<char>, c: char) -> Seq<Seq<char>> {
    split_char_from(s, c, seq![])
}

/// `v.split(c)`, each piece as a vector.
pub fn split_chars(v: &Vec<char>, c: char) -> (parts: Vec<Vec<char>>)
    ensures
        char_views(parts@) == split_char(v@, c),
{
    let mut parts: Vec<Vec<char>> = Vec::new();
    let mut cur: Vec<char> = Vec::new();
    let mut i: usize = 0;
    proof {
        assert(v@.skip(0) =~= v@);
    }
    while i < v.len()
        invariant
            i <= v.len(),
            char_views(parts@) + split_char_from(v@.skip(i as int), c, cur@) == split_char(v@, c),
        decreases v.len() - i,
    {
        let ghost rest = v@.skip(i as int);
        proof {
            assert(rest.drop_first() =~= v@.skip(i + 1));
        }
        if v[i] == c {
            let piece = cur;
            let ghost old_parts = char_views(parts@);
            parts.push(piece);
            cur = Vec::new();
            proof {
                assert(char_views(parts@) =~= old_parts.push(piece@));
                assert(old_parts + (seq![piece@] + split_char_from(rest.drop_first(), c, seq![]))
                    =~= char_views(parts@) + split_char_from(rest.drop_first(), c, seq![]));
                assert(cur@ =~= Seq::<char>::empty());
            }
        } else {
            cur.push(v[i]);
        }
        i = i + 1;
    }
    let ghost old_parts = char_views(parts@);
    parts.push(cur);
    proof {
        assert(v@.skip(i as int) =~= Seq::<char>::empty());
        assert(char_views(parts@) =~= old_parts + seq![cur@]);
    }
    parts
}

/// Drops one trailing carriage return.
pub open spec fn strip_cr(s: Seq<char>) -> Seq<char> {
    if s.len() > 0 && s.last() == '\r' {
        s.drop_last()
    } else {
        s
    }
}

/// The lines of `s`, with `cur` the start of the first line.
pub open spec fn lines_from(s: Seq<char>, cur: Seq<char>) -> Seq<Seq<char>>
    decreases s.len(),
{
    if s.len() == 0 {
        if cur.len() == 0 {
            seq![]
        } else {
            seq![cur]
        }
    } else if s[0] == '\n' {
        seq![strip_cr(cur)] + lines_from(s.drop_first(), seq![])
    } else {
        lines_from(s.drop_first(), cur.push(s[0]))
    }
}

/// `str::lines`: pieces ended by `\n` (a `\r` just before the `\n` is
/// dropped too); a final empty piece is not a line.
pub open spec fn lines(s: Seq<char>) -> Seq<Seq<char>> {
    lines_from(s, seq![])
}

/// `v.lines()`, each line as a vector.
pub fn lines_of(v: &Vec<char>) -> (out: Vec<Vec<char>>)
    ensures
        char_views(out@) == lines(v@),
{
    let mut out: Vec<Vec<char>> = Vec::new();
    let mut cur: Vec<char> = Vec::new();
    let mut i: usize = 0;
    proof {
        assert(v@.skip(0) =~= v@);
    }
    while i < v.len()
        invariant
            i <= v.len(),
            char_views(out@) + lines_from(v@.skip(i as int), cur@) == lines(v@),
        decreases v.len() - i,
    {
        let ghost rest = v@.skip(i as int);
        proof {
            assert(rest.drop_first() =~= v@.skip(i + 1));
        }
        if v[i] == '\n' {
            let mut line = cur;
            let n = line.len();
            if n > 0 && line[n - 1] == '\r' {
                line.pop();
            }
            let ghost old_out = char_views(out@);
            out.push(line);
            cur = Vec::new();
            proof {
                assert(char_views(out@) =~= old_out.push(line@));
                assert(cur@ =~= Seq::<char>::empty());
            }
        } else {
            cur.push(v[i]);
        }
        i = i + 1;
    }
    if cur.len() > 0 {
        let ghost old_out = char_views(out@);
        out.push(cur);
        proof {
            assert(char_views(out@) =~= old_out + seq![cur@]);
        }
    }
    proof {
        assert(v@.skip(i as int) =~= Seq::<char>::empty());
        assert(char_views(out@) =~= lines(v@));
    }
    out
}


/// The whitespace-separated words of `s`, with `cur` the start of the first
/// word.
pub open spec fn words_from(s: Seq<char>, cur: Seq<char>) -> Seq<Seq<char>>
    decreases s.len(),
{
    if s.len() == 0 {
        if cur.len() == 0 {
            seq![]
        } else {
            seq![cur]
        }
    } else if is_white_space(s[0]) {
        (if cur.len() == 0 {
            seq![]
        } else {
            seq![cur]
        }) + words_from(s.drop_first(), seq![])
    } else {
        words_from(s.drop_first(), cur.push(s[0]))
    }
}

/// `str::split_whitespace`.
pub open spec fn words(s: Seq<char>) -> Seq<Seq<char>> {
    words_from(s, seq![])
}

/// `v.split_whitespace()`, each word as a vector.
pub fn words_of(v: &Vec<char>) -> (out: Vec<Vec<char>>)
    ensures
        char_views(out@) == words(v@),
{
    let mut out: Vec<Vec<char>> = Vec::new();
    let mut cur: Vec<char> = Vec::new();
    let mut i: usize = 0;
    proof {
        assert(v@.skip(0) =~= v@);
    }
    while i < v.len()
        invariant
            i <= v.len(),
            char_views(out@) + words_from(v@.skip(i as int), cur@) == words(v@),
        decreases v.len() - i,
    {
        let ghost rest = v@.skip(i as int);
        proof {
            assert(rest.drop_first() =~= v@.skip(i + 1));
        }
        if is_whitespace_char(v[i]) {
            if cur.len() > 0 {
                let ghost old_out = char_views(out@);
                out.push(cur);
                cur = Vec::new();
                proof {
                    assert(char_views(out@) =~= old_out.push(out@.last()@));
                }
            } else {
                proof {
                    assert(char_views(out@) + (Seq::<Seq<char>>::empty() + words_from(rest.drop_first(), seq![]))
                        =~= char_views(out@) + words_from(rest.drop_first(), seq![]));
                    assert(cur@ =~= Seq::<char>::empty());
                }
            }
            proof {
                assert(cur@ =~= Seq::<char>::empty());
            }
        } else {
            cur.push(v[i]);
        }
        i = i + 1;
    }
    if cur.len() > 0 {
        let ghost old_out = char_views(out@);
        out.push(cur);
        proof {
            assert(char_views(out@) =~= old_out + seq![out@.last()@]);
        }
    }
    proof {
        assert(v@.skip(i as int) =~= Seq::<char>::empty());
        assert(char_views(out@) =~= words(v@));
    }
    out
}

// ---------------------------------------------------------------------------
// Replacing and joining
// ---------------------------------------------------------------------------

/// `str::replace` with a non-empty pattern: every occurrence of `pat`, found
/// left to right without overlap, becomes `rep`.
pub open spec fn replace(s: Seq<char>, pat: Seq<char>, rep: Seq<char>) -> Seq<char>
    decreases s.len(),
{
    if s.len() == 0 {
        seq![]
    } else if pat.len() > 0 && has_prefix(s, pat) {
        rep + replace(s.skip(pat.len() as int), pat, rep)
    } else {
        seq![s[0]] + replace(s.drop_first(), pat, rep)
    }
}

/// `s.replace(pat, rep)`.
pub fn replace_chars(v: &Vec<char>, pat: &Vec<char>, rep: &Vec<char>) -> (r: Vec<char>)
    requires
        pat.len() > 0,
    ensures
        r@ == replace(v@, pat@, rep@),
{
    let mut r: Vec<char> = Vec::new();
    let mut i: usize = 0;
    proof {
        assert(v@.skip(0) =~= v@);
    }
    while i < v.len()
        invariant
            i <= v.len(),
            pat.len() > 0,
            r@ + replace(v@.skip(i as int), pat@, rep@) == replace(v@, pat@, rep@),
        decreases v.len() - i,
    {
        let ghost rest = v@.skip(i as int);
        if matches_at(v, i, pat) {
            let ghost old_r = r@;
            append_chars(&mut r, rep);
            proof {
                assert(rest.skip(pat@.len() as int) =~= v@.skip(i + pat@.len()));
                assert(old_r + (rep@ + replace(rest.skip(pat@.len() as int), pat@, rep@)) =~= r@
                    + replace(v@.skip(i + pat@.len()), pat@, rep@));
            }
            i = i + pat.len();
        } else {
            let ghost old_r = r@;
            r.push(v[i]);
            proof {
                assert(rest.drop_first() =~= v@.skip(i + 1));
                assert(old_r + (seq![rest[0]] + replace(rest.drop_first(), pat@, rep@)) =~= r@
                    + replace(v@.skip(i + 1), pat@, rep@));
            }
            i = i + 1;
        }
    }
    proof {
        assert(v@.skip(i as int) =~= Seq::<char>::empty());
        assert(r@ + Seq::<char>::empty() =~= r@);
    }
    r
}

/// The pieces joined with `sep` between consecutive ones.
pub open spec fn join(parts: Seq<Seq<char>>, sep: Seq<char>) -> Seq<char>
    decreases parts.len(),
{
    if parts.len() == 0 {
        seq![]
    } else if parts.len() == 1 {
        parts[0]
    } else {
        join(parts.drop_last(), sep) + sep + parts.last()
    }
}

/// `parts.join(sep)`.
pub fn join_chars(parts: &Vec<Vec<char>>, sep: &Vec<char>) -> (r: Vec<char>)
    ensures
        r@ == join(char_views(parts@), sep@),
{
    let mut r: Vec<char> = Vec::new();
    let mut i: usize = 0;
    while i < parts.len()
        invariant
            i <= parts.len(),
            r@ == join(char_views(parts@).take(i as int), sep@),
        decreases parts.len() - i,
    {
        let ghost prev = char_views(parts@).take(i as int);
        proof {
            assert(char_views(parts@).take(i + 1).drop_last() =~= prev);
        }
        if i > 0 {
            append_chars(&mut r, sep);
        }
        append_chars(&mut r, &parts[i]);
        proof {
            if i == 0 {
                assert(char_views(parts@).take(1) =~= seq![parts@[0]@]);
                assert(r@ =~= parts@[0]@);
            }
        }
        i = i + 1;
    }
    proof {
        assert(char_views(parts@).take(parts@.len() as int) =~= char_views(parts@));
    }
    r
}

// ---------------------------------------------------------------------------
// UTF-8 lengths
// ---------------------------------------------------------------------------

/// The number of bytes of the UTF-8 encoding of `c`.
pub open spec fn utf8_width(c: char) -> nat {
    let u = c as u32;
    if u <= 0x7F {
        1
    } else if u <= 0x7FF {
        2
    } else if u <= 0xFFFF {
        3
    } else {
        4
    }
}

/// The number of bytes of the UTF-8 encoding of `s` (`str::len`).
pub open spec fn byte_len(s: Seq<char>) -> nat
    decreases s.len(),
{
    if s.len() == 0 {
        0
    } else {
        byte_len(s.drop_last()) + utf8_width(s.last())
    }
}

/// `char::len_utf8`.
pub fn char_utf8_len(c: char) -> (n: usize)
    ensures
        n == utf8_width(c),
{
    let u = c as u32;
    if u <= 0x7F {
        1
    } else if u <= 0x7FF {
        2
    } else if u <= 0xFFFF {
        3
    } else {
        4
    }
}

/// Byte lengths add up over concatenation.
pub proof fn lemma_byte_len_concat(a: Seq<char>, b: Seq<char>)
    ensures
        byte_len(a + b) == byte_len(a) + byte_len(b),
    decreases b.len(),
{
    if b.len() == 0 {
        assert(a + b =~= a);
    } else {
        lemma_byte_len_concat(a, b.drop_last());
        assert((a + b).drop_last() =~= a + b.drop_last());
    }
}

/// Longer prefixes take more bytes: every character takes at least one.
pub proof fn lemma_byte_len_prefix_grows(s: Seq<char>, i: int, j: int)
    requires
        0 <= i <= j <= s.len(),
    ensures
        byte_len(s.take(i)) + (j - i) <= byte_len(s.take(j)),
    decreases j - i,
{
    if i < j {
        lemma_byte_len_prefix_grows(s, i, j - 1);
        assert(s.take(j).drop_last() =~= s.take(j - 1));
    }
}

/// `byte_len` is the length of vstd's UTF-8 encoding of the characters, the
/// quantity that `str::len` returns.
pub proof fn lemma_byte_len_is_encoding_len(s: Seq<char>)
    ensures
        byte_len(s) == vstd::utf8::encode_utf8(s).len(),
    decreases s.len(),
{
    if s.len() > 0 {
        lemma_byte_len_is_encoding_len(s.drop_first());
        lemma_byte_len_concat(seq![s[0]], s.drop_first());
        assert(seq![s[0]] + s.drop_first() =~= s);
        assert(seq![s[0]].drop_last() =~= Seq::<char>::empty());
        vstd::utf8::char_is_scalar(s[0]);
        assert(vstd::utf8::encode_scalar(s[0] as u32).len() == utf8_width(s[0]));
        let one = seq![s[0]];
        assert(one.drop_last() =~= Seq::<char>::empty());
        assert(byte_len(one.drop_last()) == 0);
        assert(one.last() == s[0]);
        assert(byte_len(one) == utf8_width(s[0]));
    }
}

// ---------------------------------------------------------------------------
// Decimal numerals
// ---------------------------------------------------------------------------

/// The ASCII digit for `d < 10`.
pub open spec fn digit_char(d: nat) -> char {
    ((48 + d) as u32) as char
}

/// The decimal numeral of `n`, without leading zeros.
pub open spec fn decimal(n: nat) -> Seq<char>
    decreases n,
{
    if n < 10 {
        seq![digit_char(n)]
    } else {
        decimal(n / 10).push(digit_char(n % 10))
    }
}

fn digit(d: u128) -> (c: char)
    requires
        d < 10,
    ensures
        c == digit_char(d as nat),
{
    if d == 0 {
        '0'
    } else if d == 1 {
        '1'
    } else if d == 2 {
        '2'
    } else if d == 3 {
        '3'
    } else if d == 4 {
        '4'
    } else if d == 5 {
        '5'
    } else if d == 6 {
        '6'
    } else if d == 7 {
        '7'
    } else if d == 8 {
        '8'
    } else {
        '9'
    }
}

/// Appends the decimal numeral of `n`.
pub fn push_decimal(out: &mut Vec<char>, n: u128)
    ensures
        final(out)@ == old(out)@ + decimal(n as nat),
    decreases n,
{
    if n >= 10 {
        push_decimal(out, n / 10);
    }
    let c = digit(n % 10);
    out.push(c);
    proof {
        if n >= 10 {
            assert(old(out)@ + decimal((n / 10) as nat) + seq![c] =~= old(out)@ + decimal(n as nat));
        } else {
            assert(old(out)@ + seq![c] =~= old(out)@ + decimal(n as nat));
        }
    }
}

} // verus!

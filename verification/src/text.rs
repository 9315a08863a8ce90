use vstd::prelude::*;

verus! {

/// Unicode `White_Space`, the property that `char::is_whitespace` tests.
pub open spec fn is_ws(c: char) -> bool {
    let u = c as u32;
    (0x09 <= u && u <= 0x0d) || u == 0x20 || u == 0x85 || u == 0xa0 || u == 0x1680 || (0x2000
        <= u && u <= 0x200a) || u == 0x2028 || u == 0x2029 || u == 0x202f || u == 0x205f || u
        == 0x3000
}

pub fn is_whitespace(c: char) -> (r: bool)
    ensures
        r == is_ws(c),
{
    let u = c as u32;
    (0x09 <= u && u <= 0x0d) || u == 0x20 || u == 0x85 || u == 0xa0 || u == 0x1680 || (0x2000
        <= u && u <= 0x200a) || u == 0x2028 || u == 0x2029 || u == 0x202f || u == 0x205f || u
        == 0x3000
}

/// Number of leading whitespace characters.
pub open spec fn ws_prefix(s: Seq<char>) -> nat
    decreases s.len(),
{
    if s.len() > 0 && is_ws(s[0]) {
        1 + ws_prefix(s.drop_first())
    } else {
        0
    }
}

/// Length of `s` once trailing whitespace is removed.
pub open spec fn ws_trimmed_end(s: Seq<char>) -> nat
    decreases s.len(),
{
    if s.len() > 0 && is_ws(s.last()) {
        ws_trimmed_end(s.drop_last())
    } else {
        s.len()
    }
}

/// `str::trim_start`.
pub open spec fn trim_start(s: Seq<char>) -> Seq<char> {
    s.skip(ws_prefix(s) as int)
}

/// `str::trim_end`.
pub open spec fn trim_end(s: Seq<char>) -> Seq<char> {
    s.take(ws_trimmed_end(s) as int)
}

/// `str::trim`.
pub open spec fn trim(s: Seq<char>) -> Seq<char> {
    trim_end(trim_start(s))
}

/// Index of the first occurrence of `c`, or the length when there is none.
pub open spec fn find_char(s: Seq<char>, c: char) -> nat
    decreases s.len(),
{
    if s.len() == 0 {
        0
    } else if s[0] == c {
        0
    } else {
        1 + find_char(s.drop_first(), c)
    }
}

/// Index of the first whitespace character, or the length when there is none.
pub open spec fn find_ws(s: Seq<char>) -> nat
    decreases s.len(),
{
    if s.len() == 0 {
        0
    } else if is_ws(s[0]) {
        0
    } else {
        1 + find_ws(s.drop_first())
    }
}

/// `str::split(c)`: every piece between occurrences of `c`, empty pieces included.
pub open spec fn split_char(s: Seq<char>, c: char) -> Seq<Seq<char>>
    decreases s.len(),
{
    let i = find_char(s, c);
    if i >= s.len() {
        seq![s]
    } else {
        seq![s.take(i as int)] + split_char(s.skip((i + 1) as int), c)
    }
}

/// `str::split_whitespace`: the non-empty runs of non-whitespace characters.
pub open spec fn split_ws(s: Seq<char>) -> Seq<Seq<char>>
    decreases s.len(),
{
    let t = trim_start(s);
    if t.len() == 0 {
        seq![]
    } else {
        let i = find_ws(t);
        proof {
            lemma_ws_prefix(s);
            lemma_find_ws(t);
        }
        seq![t.take(i as int)] + split_ws(t.skip(i as int))
    }
}

/// `str::lines`, up to a carriage return before each line feed (every caller trims it away).
pub open spec fn lines(s: Seq<char>) -> Seq<Seq<char>> {
    let pieces = split_char(s, '\n');
    if pieces.last().len() == 0 {
        pieces.drop_last()
    } else {
        pieces
    }
}

pub open spec fn lower_char(c: char) -> char {
    if 'A' <= c && c <= 'Z' {
        ((c as u8) + 32) as char
    } else {
        c
    }
}

/// `str::to_ascii_lowercase`.
pub open spec fn to_lower(s: Seq<char>) -> Seq<char> {
    Seq::new(s.len(), |i: int| lower_char(s[i]))
}

/// `str::eq_ignore_ascii_case`.
pub open spec fn eq_ignore_case(a: Seq<char>, b: Seq<char>) -> bool {
    to_lower(a) == to_lower(b)
}

/// `str::replace(from, to)` for single characters.
pub open spec fn replace_char(s: Seq<char>, from: char, to: char) -> Seq<char> {
    Seq::new(s.len(), |i: int| if s[i] == from { to } else { s[i] })
}

/// `str::starts_with`.
pub open spec fn starts_with(s: Seq<char>, prefix: Seq<char>) -> bool {
    prefix.len() <= s.len() && s.take(prefix.len() as int) == prefix
}

// ---------------------------------------------------------------------------
// Lemmas relating the recursive definitions to index-based facts.

pub proof fn lemma_ws_prefix(s: Seq<char>)
    ensures
        ws_prefix(s) <= s.len(),
        forall|j: int| 0 <= j < ws_prefix(s) ==> is_ws(#[trigger] s[j]),
        ws_prefix(s) < s.len() ==> !is_ws(s[ws_prefix(s) as int]),
    decreases s.len(),
{
    if s.len() > 0 && is_ws(s[0]) {
        lemma_ws_prefix(s.drop_first());
        assert forall|j: int| 0 <= j < ws_prefix(s) implies is_ws(#[trigger] s[j]) by {
            if j > 0 {
                assert(s[j] == s.drop_first()[j - 1]);
            }
        }
    }
}

pub proof fn lemma_ws_prefix_unique(s: Seq<char>, i: int)
    requires
        0 <= i <= s.len(),
        forall|j: int| 0 <= j < i ==> is_ws(#[trigger] s[j]),
        i < s.len() ==> !is_ws(s[i]),
    ensures
        ws_prefix(s) == i,
    decreases s.len(),
{
    if i > 0 {
        assert(is_ws(s[0]));
        assert forall|j: int| 0 <= j < i - 1 implies is_ws(#[trigger] s.drop_first()[j]) by {
            assert(s.drop_first()[j] == s[j + 1]);
        }
        lemma_ws_prefix_unique(s.drop_first(), i - 1);
    }
}

pub proof fn lemma_ws_trimmed_end(s: Seq<char>)
    ensures
        ws_trimmed_end(s) <= s.len(),
        forall|j: int| ws_trimmed_end(s) <= j < s.len() ==> is_ws(#[trigger] s[j]),
        ws_trimmed_end(s) > 0 ==> !is_ws(s[ws_trimmed_end(s) - 1]),
    decreases s.len(),
{
    if s.len() > 0 && is_ws(s.last()) {
        lemma_ws_trimmed_end(s.drop_last());
        assert forall|j: int| ws_trimmed_end(s) <= j < s.len() implies is_ws(#[trigger] s[j]) by {
            if j < s.len() - 1 {
                assert(s[j] == s.drop_last()[j]);
            }
        }
    }
}

pub proof fn lemma_ws_trimmed_end_unique(s: Seq<char>, i: int)
    requires
        0 <= i <= s.len(),
        forall|j: int| i <= j < s.len() ==> is_ws(#[trigger] s[j]),
        i > 0 ==> !is_ws(s[i - 1]),
    ensures
        ws_trimmed_end(s) == i,
    decreases s.len(),
{
    if i < s.len() {
        assert(is_ws(s[s.len() - 1]));
        assert forall|j: int| i <= j < s.drop_last().len() implies is_ws(
            #[trigger] s.drop_last()[j],
        ) by {
            assert(s.drop_last()[j] == s[j]);
        }
        lemma_ws_trimmed_end_unique(s.drop_last(), i);
    }
}

pub proof fn lemma_find_char(s: Seq<char>, c: char)
    ensures
        find_char(s, c) <= s.len(),
        forall|j: int| 0 <= j < find_char(s, c) ==> #[trigger] s[j] != c,
        find_char(s, c) < s.len() ==> s[find_char(s, c) as int] == c,
    decreases s.len(),
{
    if s.len() > 0 && s[0] != c {
        lemma_find_char(s.drop_first(), c);
        assert forall|j: int| 0 <= j < find_char(s, c) implies #[trigger] s[j] != c by {
            if j > 0 {
                assert(s[j] == s.drop_first()[j - 1]);
            }
        }
    }
}

pub proof fn lemma_find_char_unique(s: Seq<char>, c: char, i: int)
    requires
        0 <= i <= s.len(),
        forall|j: int| 0 <= j < i ==> #[trigger] s[j] != c,
        i < s.len() ==> s[i] == c,
    ensures
        find_char(s, c) == i,
    decreases s.len(),
{
    if i > 0 {
        assert(s[0] != c);
        assert forall|j: int| 0 <= j < i - 1 implies #[trigger] s.drop_first()[j] != c by {
            assert(s.drop_first()[j] == s[j + 1]);
        }
        lemma_find_char_unique(s.drop_first(), c, i - 1);
    }
}

pub proof fn lemma_find_ws(s: Seq<char>)
    ensures
        find_ws(s) <= s.len(),
        forall|j: int| 0 <= j < find_ws(s) ==> !is_ws(#[trigger] s[j]),
        find_ws(s) < s.len() ==> is_ws(s[find_ws(s) as int]),
    decreases s.len(),
{
    if s.len() > 0 && !is_ws(s[0]) {
        lemma_find_ws(s.drop_first());
        assert forall|j: int| 0 <= j < find_ws(s) implies !is_ws(#[trigger] s[j]) by {
            if j > 0 {
                assert(s[j] == s.drop_first()[j - 1]);
            }
        }
    }
}

pub proof fn lemma_find_ws_unique(s: Seq<char>, i: int)
    requires
        0 <= i <= s.len(),
        forall|j: int| 0 <= j < i ==> !is_ws(#[trigger] s[j]),
        i < s.len() ==> is_ws(s[i]),
    ensures
        find_ws(s) == i,
    decreases s.len(),
{
    if i > 0 {
        assert(!is_ws(s[0]));
        assert forall|j: int| 0 <= j < i - 1 implies !is_ws(#[trigger] s.drop_first()[j]) by {
            assert(s.drop_first()[j] == s[j + 1]);
        }
        lemma_find_ws_unique(s.drop_first(), i - 1);
    }
}

// ---------------------------------------------------------------------------
// Executable counterparts over character vectors.

/// Characters of a string slice.
pub fn chars_of(s: &str) -> (r: Vec<char>)
    ensures
        r@ == s@,
{
    let mut r: Vec<char> = Vec::new();
    for c in it: s.chars()
        invariant
            r@ == it.seq().take(it.index()),
            it.seq() == s@,
    {
        r.push(c);
        proof {
            assert(it.seq().take(it.index() + 1) == it.seq().take(it.index()).push(c));
        }
    }
    r
}

/// A copy of `v[from..to]`.
pub fn slice_chars(v: &Vec<char>, from: usize, to: usize) -> (r: Vec<char>)
    requires
        from <= to <= v.len(),
    ensures
        r@ == v@.subrange(from as int, to as int),
{
    let mut r: Vec<char> = Vec::new();
    let mut i = from;
    while i < to
        invariant
            from <= i <= to <= v.len(),
            r@ == v@.subrange(from as int, i as int),
        decreases to - i,
    {
        r.push(v[i]);
        i += 1;
        proof {
            assert(r@ == v@.subrange(from as int, i as int));
        }
    }
    r
}

pub fn trim_vec(v: &Vec<char>) -> (r: Vec<char>)
    ensures
        r@ == trim(v@),
{
    let mut a: usize = 0;
    while a < v.len() && is_whitespace(v[a])
        invariant
            a <= v.len(),
            forall|j: int| 0 <= j < a ==> is_ws(#[trigger] v@[j]),
        decreases v.len() - a,
    {
        a += 1;
    }
    proof {
        lemma_ws_prefix_unique(v@, a as int);
    }
    let ghost t = trim_start(v@);
    let mut b: usize = v.len();
    while b > a && is_whitespace(v[b - 1])
        invariant
            a <= b <= v.len(),
            t == v@.skip(a as int),
            forall|j: int| b <= j < v.len() ==> is_ws(#[trigger] v@[j]),
        decreases b,
    {
        b -= 1;
    }
    proof {
        assert forall|j: int| (b - a) <= j < t.len() implies is_ws(#[trigger] t[j]) by {
            assert(t[j] == v@[j + a]);
        }
        if b > a {
            assert(t[b - a - 1] == v@[b - 1]);
        }
        lemma_ws_trimmed_end_unique(t, (b - a) as int);
        assert(trim(v@) =~= v@.subrange(a as int, b as int));
    }
    slice_chars(v, a, b)
}

pub fn find_char_vec(v: &Vec<char>, c: char) -> (r: usize)
    ensures
        r == find_char(v@, c),
        r <= v.len(),
{
    let mut i: usize = 0;
    while i < v.len() && v[i] != c
        invariant
            i <= v.len(),
            forall|j: int| 0 <= j < i ==> #[trigger] v@[j] != c,
        decreases v.len() - i,
    {
        i += 1;
    }
    proof {
        lemma_find_char_unique(v@, c, i as int);
    }
    i
}

pub fn lower_vec(v: &Vec<char>) -> (r: Vec<char>)
    ensures
        r@ == to_lower(v@),
{
    let mut r: Vec<char> = Vec::new();
    let mut i: usize = 0;
    while i < v.len()
        invariant
            i <= v.len(),
            r@.len() == i,
            forall|j: int| 0 <= j < i ==> #[trigger] r@[j] == lower_char(v@[j]),
        decreases v.len() - i,
    {
        let c = v[i];
        r.push(lower_char_exec(c));
        i += 1;
    }
    proof {
        assert(r@ =~= to_lower(v@));
    }
    r
}

pub fn lower_char_exec(c: char) -> (r: char)
    ensures
        r == lower_char(c),
{
    if 'A' <= c && c <= 'Z' {
        ((c as u8) + 32) as char
    } else {
        c
    }
}

/// Whether `v` equals `key` when ASCII case is ignored.
pub fn eq_ignore_case_vec(v: &Vec<char>, key: &Vec<char>) -> (r: bool)
    ensures
        r == eq_ignore_case(v@, key@),
{
    if v.len() != key.len() {
        proof {
            assert(to_lower(v@).len() != to_lower(key@).len());
        }
        return false;
    }
    let mut i: usize = 0;
    while i < v.len()
        invariant
            i <= v.len() == key.len(),
            forall|j: int| 0 <= j < i ==> lower_char(#[trigger] v@[j]) == lower_char(key@[j]),
        decreases v.len() - i,
    {
        if lower_char_exec(v[i]) != lower_char_exec(key[i]) {
            proof {
                assert(to_lower(v@)[i as int] != to_lower(key@)[i as int]);
            }
            return false;
        }
        i += 1;
    }
    proof {
        assert(to_lower(v@) =~= to_lower(key@));
    }
    true
}

pub fn replace_char_vec(v: &Vec<char>, from: char, to: char) -> (r: Vec<char>)
    ensures
        r@ == replace_char(v@, from, to),
{
    let mut r: Vec<char> = Vec::new();
    let mut i: usize = 0;
    while i < v.len()
        invariant
            i <= v.len(),
            r@.len() == i,
            forall|j: int|
                0 <= j < i ==> #[trigger] r@[j] == (if v@[j] == from {
                    to
                } else {
                    v@[j]
                }),
        decreases v.len() - i,
    {
        let c = v[i];
        r.push(if c == from { to } else { c });
        i += 1;
    }
    proof {
        assert(r@ =~= replace_char(v@, from, to));
    }
    r
}

pub fn starts_with_vec(v: &Vec<char>, prefix: &Vec<char>) -> (r: bool)
    ensures
        r == starts_with(v@, prefix@),
{
    if prefix.len() > v.len() {
        return false;
    }
    let mut i: usize = 0;
    while i < prefix.len()
        invariant
            i <= prefix.len() <= v.len(),
            forall|j: int| 0 <= j < i ==> #[trigger] v@[j] == prefix@[j],
        decreases prefix.len() - i,
    {
        if v[i] != prefix[i] {
            proof {
                assert(v@.take(prefix.len() as int)[i as int] != prefix@[i as int]);
            }
            return false;
        }
        i += 1;
    }
    proof {
        assert(v@.take(prefix.len() as int) =~= prefix@);
    }
    true
}

/// Whether two character vectors are equal.
pub fn eq_vec(a: &Vec<char>, b: &Vec<char>) -> (r: bool)
    ensures
        r == (a@ == b@),
{
    if a.len() != b.len() {
        return false;
    }
    let mut i: usize = 0;
    while i < a.len()
        invariant
            i <= a.len() == b.len(),
            forall|j: int| 0 <= j < i ==> #[trigger] a@[j] == b@[j],
        decreases a.len() - i,
    {
        if a[i] != b[i] {
            return false;
        }
        i += 1;
    }
    proof {
        assert(a@ =~= b@);
    }
    true
}

pub fn split_char_vec(v: &Vec<char>, c: char) -> (r: Vec<Vec<char>>)
    ensures
        r@.len() == split_char(v@, c).len(),
        forall|k: int| 0 <= k < r@.len() ==> #[trigger] r@[k]@ == split_char(v@, c)[k],
{
    let mut r: Vec<Vec<char>> = Vec::new();
    let mut start: usize = 0;
    let mut i: usize = 0;
    proof {
        assert(v@.skip(0) =~= v@);
    }
    // pieces already emitted plus the split of the remainder form the whole split.
    while i < v.len()
        invariant
            start <= i <= v.len(),
            forall|j: int| start <= j < i ==> #[trigger] v@[j] != c,
            r@.len() + split_char(v@.skip(start as int), c).len() == split_char(v@, c).len(),
            forall|k: int| 0 <= k < r@.len() ==> #[trigger] r@[k]@ == split_char(v@, c)[k],
            forall|k: int|
                0 <= k < split_char(v@.skip(start as int), c).len() ==> split_char(v@, c)[r@.len()
                    + k] == #[trigger] split_char(v@.skip(start as int), c)[k],
        decreases v.len() - i,
    {
        if v[i] == c {
            let ghost rest = v@.skip(start as int);
            let ghost old_start = start;
            proof {
                assert forall|j: int| 0 <= j < i - start implies #[trigger] rest[j] != c by {
                    assert(rest[j] == v@[start + j]);
                }
                lemma_find_char_unique(rest, c, (i - start) as int);
                assert(rest.skip(i - start + 1) =~= v@.skip(i + 1));
                assert(rest.take(i - start) =~= v@.subrange(start as int, i as int));
            }
            let piece = slice_chars(v, start, i);
            r.push(piece);
            start = i + 1;
            proof {
                let rest2 = v@.skip(start as int);
                assert(split_char(rest, c) == seq![rest.take(i - old_start)] + split_char(
                    rest2,
                    c,
                ));
                assert forall|k: int| 0 <= k < r@.len() implies #[trigger] r@[k]@ == split_char(
                    v@,
                    c,
                )[k] by {
                    if k == r@.len() - 1 {
                        assert(split_char(rest, c)[0] == rest.take(i - old_start));
                    }
                }
                assert forall|k: int| 0 <= k < split_char(rest2, c).len() implies split_char(
                    v@,
                    c,
                )[r@.len() + k] == #[trigger] split_char(rest2, c)[k] by {
                    assert(split_char(rest, c)[k + 1] == split_char(rest2, c)[k]);
                }
            }
        }
        i += 1;
    }
    let ghost rest = v@.skip(start as int);
    proof {
        assert forall|j: int| 0 <= j < rest.len() implies #[trigger] rest[j] != c by {
            assert(rest[j] == v@[start + j]);
        }
        lemma_find_char_unique(rest, c, rest.len() as int);
        assert(rest =~= v@.subrange(start as int, v.len() as int));
    }
    let last = slice_chars(v, start, v.len());
    let ghost before: int = r@.len() as int;
    let ghost prev = r@;
    r.push(last);
    proof {
        assert(split_char(rest, c) == seq![rest]);
        assert(split_char(v@, c)[before + 0] == split_char(rest, c)[0]);
        assert forall|k: int| 0 <= k < r@.len() implies #[trigger] r@[k]@ == split_char(v@, c)[k] by {
            if k < before {
                assert(r@[k] == prev[k]);
            }
        }
    }
    r
}

/// The views of a vector of character vectors.
pub open spec fn views(v: Seq<Vec<char>>) -> Seq<Seq<char>> {
    Seq::new(v.len(), |i: int| v[i]@)
}

pub fn split_ws_vec(v: &Vec<char>) -> (r: Vec<Vec<char>>)
    ensures
        views(r@) == split_ws(v@),
{
    let mut r: Vec<Vec<char>> = Vec::new();
    let mut pos: usize = 0;
    proof {
        assert(v@.skip(0) =~= v@);
        assert(views(r@) + split_ws(v@.skip(0)) =~= split_ws(v@));
    }
    while pos < v.len()
        invariant
            pos <= v.len(),
            views(r@) + split_ws(v@.skip(pos as int)) == split_ws(v@),
        ensures
            pos == v.len(),
            views(r@) + split_ws(v@.skip(pos as int)) == split_ws(v@),
        decreases v.len() - pos,
    {
        let ghost p0 = pos;
        let ghost s0 = v@.skip(p0 as int);
        while pos < v.len() && is_whitespace(v[pos])
            invariant
                p0 <= pos <= v.len(),
                s0 == v@.skip(p0 as int),
                forall|j: int| p0 <= j < pos ==> is_ws(#[trigger] v@[j]),
            decreases v.len() - pos,
        {
            pos += 1;
        }
        proof {
            assert forall|j: int| 0 <= j < pos - p0 implies is_ws(#[trigger] s0[j]) by {
                assert(s0[j] == v@[p0 + j]);
            }
            if pos < v.len() {
                assert(s0[pos - p0] == v@[pos as int]);
            }
            lemma_ws_prefix_unique(s0, (pos - p0) as int);
            assert(trim_start(s0) =~= v@.skip(pos as int));
        }
        if pos == v.len() {
            proof {
                assert(split_ws(s0) =~= Seq::<Seq<char>>::empty());
                assert(split_ws(v@.skip(pos as int)) =~= Seq::<Seq<char>>::empty()) by {
                    assert(v@.skip(pos as int).len() == 0);
                    assert(trim_start(v@.skip(pos as int)).len() == 0);
                }
            }
            break;
        }
        let start = pos;
        let ghost t = v@.skip(start as int);
        while pos < v.len() && !is_whitespace(v[pos])
            invariant
                start <= pos <= v.len(),
                forall|j: int| start <= j < pos ==> !is_ws(#[trigger] v@[j]),
            decreases v.len() - pos,
        {
            pos += 1;
        }
        proof {
            assert forall|j: int| 0 <= j < pos - start implies !is_ws(#[trigger] t[j]) by {
                assert(t[j] == v@[start + j]);
            }
            if pos < v.len() {
                assert(t[pos - start] == v@[pos as int]);
            }
            lemma_find_ws_unique(t, (pos - start) as int);
            assert(t.take(pos - start) =~= v@.subrange(start as int, pos as int));
            assert(t.skip(pos - start) =~= v@.skip(pos as int));
            assert(split_ws(s0) == seq![t.take(pos - start)] + split_ws(t.skip(pos - start)));
        }
        let token = slice_chars(v, start, pos);
        let ghost prev = r@;
        r.push(token);
        proof {
            assert(views(r@) =~= views(prev).push(token@));
            assert(views(r@) + split_ws(v@.skip(pos as int)) =~= views(prev) + split_ws(s0));
        }
    }
    proof {
        if pos == v.len() {
            assert(split_ws(v@.skip(pos as int)) == Seq::<Seq<char>>::empty()) by {
                assert(v@.skip(pos as int).len() == 0);
                assert(trim_start(v@.skip(pos as int)).len() == 0);
            }
            assert(views(r@) =~= views(r@) + Seq::<Seq<char>>::empty());
        }
    }
    r
}

pub fn lines_vec(v: &Vec<char>) -> (r: Vec<Vec<char>>)
    ensures
        views(r@) == lines(v@),
{
    let mut pieces = split_char_vec(v, '\n');
    proof {
        assert(views(pieces@) =~= split_char(v@, '\n'));
        lemma_split_char_nonempty(v@, '\n');
    }
    let n = pieces.len();
    if pieces[n - 1].len() == 0 {
        let ghost before = pieces@;
        pieces.pop();
        proof {
            assert(views(pieces@) =~= views(before).drop_last());
        }
    }
    pieces
}

pub proof fn lemma_split_char_nonempty(s: Seq<char>, c: char)
    ensures
        split_char(s, c).len() >= 1,
    decreases s.len(),
{
    lemma_find_char(s, c);
    let i = find_char(s, c);
    if i < s.len() {
        lemma_split_char_nonempty(s.skip((i + 1) as int), c);
    }
}

/// Collects characters into a `String` through `String`'s `FromIterator<&char>`,
/// which appends them in order; the contract claims exactly that.
#[verifier::external_body]
pub(crate) fn string_of(v: &Vec<char>) -> (r: String)
    ensures
        r@ == v@,
{
    v.iter().collect()
}

/// A fixed text followed by some characters.
pub fn text_with(fixed: &str, tail: &Vec<char>) -> (r: String)
    ensures
        r@ == fixed@ + tail@,
{
    let mut r = String::from_str(fixed);
    let t = string_of(tail);
    r.append(t.as_str());
    r
}

/// Index of the first occurrence of `pat` in `s`.
pub open spec fn find_sub(s: Seq<char>, pat: Seq<char>) -> Option<nat>
    decreases s.len(),
{
    if starts_with(s, pat) {
        Some(0)
    } else if s.len() == 0 {
        None
    } else {
        match find_sub(s.drop_first(), pat) {
            Some(i) => Some(i + 1),
            None => None,
        }
    }
}

/// `str::contains` with a string pattern.
pub open spec fn contains_sub(s: Seq<char>, pat: Seq<char>) -> bool {
    find_sub(s, pat) is Some
}

pub proof fn lemma_find_sub_at(s: Seq<char>, pat: Seq<char>, i: int)
    requires
        0 <= i <= s.len(),
        forall|j: int| 0 <= j < i ==> !starts_with(#[trigger] s.skip(j), pat),
        starts_with(s.skip(i), pat),
    ensures
        find_sub(s, pat) == Some(i as nat),
    decreases i,
{
    if i == 0 {
        assert(s.skip(0) =~= s);
    } else {
        assert(!starts_with(s.skip(0), pat));
        assert(s.skip(0) =~= s);
        assert forall|j: int| 0 <= j < i - 1 implies !starts_with(
            #[trigger] s.drop_first().skip(j),
            pat,
        ) by {
            assert(s.drop_first().skip(j) =~= s.skip(j + 1));
        }
        assert(s.drop_first().skip(i - 1) =~= s.skip(i));
        lemma_find_sub_at(s.drop_first(), pat, i - 1);
    }
}

pub proof fn lemma_find_sub_none(s: Seq<char>, pat: Seq<char>)
    requires
        forall|j: int| 0 <= j <= s.len() ==> !starts_with(#[trigger] s.skip(j), pat),
    ensures
        find_sub(s, pat) is None,
    decreases s.len(),
{
    assert(s.skip(0) =~= s);
    if s.len() > 0 {
        assert forall|j: int| 0 <= j <= s.drop_first().len() implies !starts_with(
            #[trigger] s.drop_first().skip(j),
            pat,
        ) by {
            assert(s.drop_first().skip(j) =~= s.skip(j + 1));
        }
        lemma_find_sub_none(s.drop_first(), pat);
    }
}

/// Whether `pat` occurs in `v` at `i`.
fn occurs_at(v: &Vec<char>, pat: &Vec<char>, i: usize) -> (r: bool)
    requires
        i <= v.len(),
    ensures
        r == starts_with(v@.skip(i as int), pat@),
{
    if pat.len() > v.len() - i {
        return false;
    }
    let mut k: usize = 0;
    while k < pat.len()
        invariant
            k <= pat.len() <= v.len() - i,
            i <= v.len(),
            forall|j: int| 0 <= j < k ==> v@[i + j] == #[trigger] pat@[j],
        decreases pat.len() - k,
    {
        if v[i + k] != pat[k] {
            proof {
                assert(v@.skip(i as int).take(pat.len() as int)[k as int] == v@[i + k]);
            }
            return false;
        }
        k += 1;
    }
    proof {
        assert(v@.skip(i as int).take(pat.len() as int) =~= pat@);
    }
    true
}

pub fn find_sub_vec(v: &Vec<char>, pat: &Vec<char>) -> (r: Option<usize>)
    ensures
        match r {
            Some(i) => find_sub(v@, pat@) == Some(i as nat) && i <= v.len(),
            None => find_sub(v@, pat@) is None,
        },
{
    let mut i: usize = 0;
    while i <= v.len()
        invariant
            i <= v.len() + 1,
            forall|j: int| 0 <= j < i ==> !starts_with(#[trigger] v@.skip(j), pat@),
        decreases v.len() + 1 - i,
    {
        if occurs_at(v, pat, i) {
            proof {
                lemma_find_sub_at(v@, pat@, i as int);
            }
            return Some(i);
        }
        if i == v.len() {
            proof {
                lemma_find_sub_none(v@, pat@);
            }
            return None;
        }
        i += 1;
    }
    proof {
        lemma_find_sub_none(v@, pat@);
    }
    None
}

/// A found occurrence lies within the text.
pub proof fn lemma_find_sub_fits(s: Seq<char>, pat: Seq<char>)
    ensures
        find_sub(s, pat) matches Some(i) ==> i + pat.len() <= s.len() && starts_with(
            s.skip(i as int),
            pat,
        ),
    decreases s.len(),
{
    if starts_with(s, pat) {
        assert(s.skip(0) =~= s);
    } else if s.len() > 0 {
        lemma_find_sub_fits(s.drop_first(), pat);
        if let Some(i) = find_sub(s.drop_first(), pat) {
            assert(s.drop_first().skip(i as int) =~= s.skip((i + 1) as int));
        }
    }
}

} // verus!

use vstd::prelude::*;

verus! {

/// The characters of a string slice, in order.
pub fn chars_of(s: &str) -> (v: Vec<char>)
    ensures
        v@ == s@,
{
    let mut v: Vec<char> = Vec::new();
    for c in it: s.chars()
        invariant
            v.len() == it.index(),
            it.seq() == s@,
            forall|i: int| 0 <= i < v.len() ==> v@[i] == it.seq()[i],
    {
        v.push(c);
    }
    v
}


/// Strict lexicographic order on character sequences, by code point.
pub open spec fn seq_lt(a: Seq<char>, b: Seq<char>) -> bool
    decreases a.len(),
{
    if b.len() == 0 {
        false
    } else if a.len() == 0 {
        true
    } else if (a[0] as int) < (b[0] as int) {
        true
    } else if a[0] == b[0] {
        seq_lt(a.drop_first(), b.drop_first())
    } else {
        false
    }
}

pub proof fn lemma_seq_lt_irreflexive(a: Seq<char>)
    ensures
        !seq_lt(a, a),
    decreases a.len(),
{
    if a.len() > 0 {
        lemma_seq_lt_irreflexive(a.drop_first());
    }
}

pub proof fn lemma_seq_lt_transitive(a: Seq<char>, b: Seq<char>, c: Seq<char>)
    requires
        seq_lt(a, b),
        seq_lt(b, c),
    ensures
        seq_lt(a, c),
    decreases a.len(),
{
    if a.len() > 0 && b.len() > 0 && c.len() > 0 && a[0] == b[0] && b[0] == c[0] {
        lemma_seq_lt_transitive(a.drop_first(), b.drop_first(), c.drop_first());
    }
}

pub proof fn lemma_seq_lt_total(a: Seq<char>, b: Seq<char>)
    ensures
        seq_lt(a, b) || seq_lt(b, a) || a == b,
    decreases a.len(),
{
    if a.len() > 0 && b.len() > 0 && a[0] == b[0] {
        lemma_seq_lt_total(a.drop_first(), b.drop_first());
        if a.drop_first() == b.drop_first() {
            assert(a =~= seq![a[0]] + a.drop_first());
            assert(b =~= seq![b[0]] + b.drop_first());
        }
    } else if a.len() > 0 && b.len() > 0 {
        assert((a[0] as int) != (b[0] as int));
    } else if a.len() == 0 && b.len() == 0 {
        assert(a =~= b);
    }
}

/// Compares two character sequences in the order `seq_lt`.
pub fn chars_lt(a: &[char], b: &[char]) -> (r: bool)
    ensures
        r == seq_lt(a@, b@),
{
    let mut i: usize = 0;
    assert(a@.skip(0) =~= a@ && b@.skip(0) =~= b@);
    while i < a.len() && i < b.len()
        invariant
            i <= a.len(),
            i <= b.len(),
            a@.take(i as int) == b@.take(i as int),
            seq_lt(a@, b@) == seq_lt(a@.skip(i as int), b@.skip(i as int)),
        decreases a.len() - i,
    {
        let x = a[i];
        let y = b[i];
        if x < y {
            return true;
        }
        if x != y {
            return false;
        }
        proof {
            let sa = a@.skip(i as int);
            let sb = b@.skip(i as int);
            assert(sa.drop_first() =~= a@.skip(i + 1));
            assert(sb.drop_first() =~= b@.skip(i + 1));
            assert(a@.take(i + 1) =~= a@.take(i as int).push(x));
            assert(b@.take(i + 1) =~= b@.take(i as int).push(y));
        }
        i = i + 1;
    }
    i < b.len()
}

/// Compares two character sequences for equality.
pub fn chars_eq(a: &[char], b: &[char]) -> (r: bool)
    ensures
        r == (a@ == b@),
{
    if a.len() != b.len() {
        return false;
    }
    let mut i: usize = 0;
    while i < a.len()
        invariant
            i <= a.len(),
            a.len() == b.len(),
            forall|j: int| 0 <= j < i ==> a@[j] == b@[j],
        decreases a.len() - i,
    {
        if a[i] != b[i] {
            return false;
        }
        i = i + 1;
    }
    assert(a@ =~= b@);
    true
}


/// Appends a character: calls `String::push`. Claimed: the string's
/// characters are the old ones followed by `c`.
#[verifier::external_body]
fn push_char(s: &mut String, c: char)
    ensures
        final(s)@ == old(s)@.push(c),
{
    s.push(c)
}

/// Builds a `String` that holds these characters, in order.
pub fn string_from_chars(cs: &[char]) -> (s: String)
    ensures
        s@ == cs@,
{
    let mut s = String::new();
    let mut i: usize = 0;
    while i < cs.len()
        invariant
            i <= cs.len(),
            s@ == cs@.take(i as int),
        decreases cs.len() - i,
    {
        push_char(&mut s, cs[i]);
        i = i + 1;
        assert(s@ =~= cs@.take(i as int));
    }
    assert(cs@.take(i as int) =~= cs@);
    s
}

/// The characters `a..b` of `s`, copied.
pub fn slice_chars(s: &[char], a: usize, b: usize) -> (r: Vec<char>)
    requires
        a <= b <= s@.len(),
    ensures
        r@ == s@.subrange(a as int, b as int),
{
    let mut r: Vec<char> = Vec::new();
    let mut i: usize = a;
    while i < b
        invariant
            a <= i <= b,
            b <= s@.len(),
            r@ == s@.subrange(a as int, i as int),
        decreases b - i,
    {
        r.push(s[i]);
        i = i + 1;
        assert(r@ =~= s@.subrange(a as int, i as int));
    }
    r
}

/// `pat` stands in `s` at position `i`.
pub open spec fn matches_at(s: Seq<char>, pat: Seq<char>, i: int) -> bool {
    0 <= i && i + pat.len() <= s.len() && s.subrange(i, i + pat.len()) == pat
}

/// The first position from `i` on where `pat` stands in `s`.
pub open spec fn find_from(s: Seq<char>, pat: Seq<char>, i: int) -> Option<int>
    decreases s.len() + 1 - i,
{
    if i < 0 || i + pat.len() > s.len() {
        None
    } else if matches_at(s, pat, i) {
        Some(i)
    } else {
        find_from(s, pat, i + 1)
    }
}

/// The first position where `pat` stands in `s` (`str::find`).
pub open spec fn find_seq(s: Seq<char>, pat: Seq<char>) -> Option<int> {
    find_from(s, pat, 0)
}

pub proof fn lemma_find_from_bound(s: Seq<char>, pat: Seq<char>, i: int)
    ensures
        find_from(s, pat, i) matches Some(p) ==> i <= p && p + pat.len() <= s.len() && matches_at(s, pat, p),
    decreases s.len() + 1 - i,
{
    if !(i < 0 || i + pat.len() > s.len()) && !matches_at(s, pat, i) {
        lemma_find_from_bound(s, pat, i + 1);
    }
}

pub fn matches_at_exec(s: &[char], pat: &[char], i: usize) -> (r: bool)
    ensures
        r == matches_at(s@, pat@, i as int),
{
    if i > s.len() || pat.len() > s.len() - i {
        return false;
    }
    let mut j: usize = 0;
    while j < pat.len()
        invariant
            j <= pat.len(),
            i + pat.len() <= s.len(),
            forall|k: int| 0 <= k < j ==> s@[i + k] == pat@[k],
        decreases pat.len() - j,
    {
        if s[i + j] != pat[j] {
            assert(s@.subrange(i as int, i + pat.len())[j as int] != pat@[j as int]);
            return false;
        }
        j = j + 1;
    }
    assert(s@.subrange(i as int, i + pat.len()) =~= pat@);
    true
}

/// The first position where `pat` stands in `s`.
pub fn find_chars(s: &[char], pat: &[char]) -> (r: Option<usize>)
    ensures
        match r {
            Some(p) => find_seq(s@, pat@) == Some(p as int),
            None => find_seq(s@, pat@) is None,
        },
{
    let mut i: usize = 0;
    while i <= s.len()
        invariant
            i <= s.len() + 1,
            find_seq(s@, pat@) == find_from(s@, pat@, i as int),
        decreases s.len() + 1 - i,
    {
        if pat.len() > s.len() - i {
            return None;
        }
        if matches_at_exec(s, pat, i) {
            return Some(i);
        }
        proof {
            if pat.len() == 0 {
                assert(s@.subrange(i as int, i as int) =~= pat@);
            }
        }
        i = i + 1;
    }
    None
}

/// `char::is_whitespace`: the characters with the Unicode White_Space property.
pub open spec fn is_ws(c: char) -> bool {
    let u = c as int;
    ||| 9 <= u <= 13
    ||| u == 32
    ||| u == 0x85
    ||| u == 0xa0
    ||| u == 0x1680
    ||| 0x2000 <= u <= 0x200a
    ||| u == 0x2028
    ||| u == 0x2029
    ||| u == 0x202f
    ||| u == 0x205f
    ||| u == 0x3000
}

pub fn is_ws_exec(c: char) -> (r: bool)
    ensures
        r == is_ws(c),
{
    ('\u{9}' <= c && c <= '\u{d}') || c == ' ' || c == '\u{85}' || c == '\u{a0}' || c == '\u{1680}'
        || ('\u{2000}' <= c && c <= '\u{200a}') || c == '\u{2028}' || c == '\u{2029}' || c
        == '\u{202f}' || c == '\u{205f}' || c == '\u{3000}'
}

/// `str::trim_start`: without its leading white space.
pub open spec fn trim_start(s: Seq<char>) -> Seq<char>
    decreases s.len(),
{
    if s.len() > 0 && is_ws(s[0]) {
        trim_start(s.drop_first())
    } else {
        s
    }
}

/// `str::trim_end`: without its trailing white space.
pub open spec fn trim_end(s: Seq<char>) -> Seq<char>
    decreases s.len(),
{
    if s.len() > 0 && is_ws(s.last()) {
        trim_end(s.drop_last())
    } else {
        s
    }
}

/// `str::trim`: without white space at either end.
pub open spec fn trim(s: Seq<char>) -> Seq<char> {
    trim_end(trim_start(s))
}

/// `str::trim_matches` with a character: without that character at either end.
pub open spec fn trim_char(s: Seq<char>, c: char) -> Seq<char> {
    strip_end_char(strip_start_char(s, c), c)
}

pub open spec fn strip_start_char(s: Seq<char>, c: char) -> Seq<char>
    decreases s.len(),
{
    if s.len() > 0 && s[0] == c {
        strip_start_char(s.drop_first(), c)
    } else {
        s
    }
}

pub open spec fn strip_end_char(s: Seq<char>, c: char) -> Seq<char>
    decreases s.len(),
{
    if s.len() > 0 && s.last() == c {
        strip_end_char(s.drop_last(), c)
    } else {
        s
    }
}

proof fn lemma_trim_start_step(s: Seq<char>, i: int)
    requires
        0 <= i < s.len(),
        trim_start(s) == trim_start(s.skip(i)),
        is_ws(s[i]),
    ensures
        trim_start(s) == trim_start(s.skip(i + 1)),
{
    assert(s.skip(i).drop_first() =~= s.skip(i + 1));
}

/// Without leading white space.
pub fn trim_start_exec(s: &[char]) -> (r: Vec<char>)
    ensures
        r@ == trim_start(s@),
{
    let mut i: usize = 0;
    assert(s@.skip(0) =~= s@);
    while i < s.len() && is_ws_exec(s[i])
        invariant
            i <= s.len(),
            trim_start(s@) == trim_start(s@.skip(i as int)),
        decreases s.len() - i,
    {
        proof {
            lemma_trim_start_step(s@, i as int);
        }
        i = i + 1;
    }
    assert(s@.skip(i as int) =~= s@.subrange(i as int, s@.len() as int));
    slice_chars(s, i, s.len())
}

proof fn lemma_trim_end_step(s: Seq<char>, j: int)
    requires
        0 < j <= s.len(),
        trim_end(s) == trim_end(s.take(j)),
        is_ws(s[j - 1]),
    ensures
        trim_end(s) == trim_end(s.take(j - 1)),
{
    assert(s.take(j).drop_last() =~= s.take(j - 1));
}

/// Without white space at either end.
pub fn trim_exec(s: &[char]) -> (r: Vec<char>)
    ensures
        r@ == trim(s@),
{
    let t = trim_start_exec(s);
    let mut j: usize = t.len();
    assert(t@.take(j as int) =~= t@);
    while j > 0 && is_ws_exec(t[j - 1])
        invariant
            j <= t.len(),
            trim_end(t@) == trim_end(t@.take(j as int)),
        decreases j,
    {
        proof {
            lemma_trim_end_step(t@, j as int);
        }
        j = j - 1;
    }
    assert(t@.take(j as int) =~= t@.subrange(0, j as int));
    slice_chars(t.as_slice(), 0, j)
}

/// Without the character `c` at either end.
pub fn trim_char_exec(s: &[char], c: char) -> (r: Vec<char>)
    ensures
        r@ == trim_char(s@, c),
{
    let mut i: usize = 0;
    assert(s@.skip(0) =~= s@);
    while i < s.len() && s[i] == c
        invariant
            i <= s.len(),
            strip_start_char(s@, c) == strip_start_char(s@.skip(i as int), c),
        decreases s.len() - i,
    {
        assert(s@.skip(i as int).drop_first() =~= s@.skip(i + 1));
        i = i + 1;
    }
    let t = slice_chars(s, i, s.len());
    assert(s@.skip(i as int) =~= t@);
    let mut j: usize = t.len();
    assert(t@.take(j as int) =~= t@);
    while j > 0 && t[j - 1] == c
        invariant
            j <= t.len(),
            strip_end_char(t@, c) == strip_end_char(t@.take(j as int), c),
        decreases j,
    {
        assert(t@.take(j as int).drop_last() =~= t@.take(j - 1));
        j = j - 1;
    }
    assert(t@.take(j as int) =~= t@.subrange(0, j as int));
    slice_chars(t.as_slice(), 0, j)
}

/// `str::strip_prefix`: the rest after `pat`, when `s` starts with it.
pub open spec fn strip_prefix(s: Seq<char>, pat: Seq<char>) -> Option<Seq<char>> {
    if matches_at(s, pat, 0) {
        Some(s.skip(pat.len() as int))
    } else {
        None
    }
}

pub fn strip_prefix_exec(s: &[char], pat: &[char]) -> (r: Option<Vec<char>>)
    ensures
        match r {
            Some(v) => strip_prefix(s@, pat@) == Some(v@),
            None => strip_prefix(s@, pat@) is None,
        },
{
    if matches_at_exec(s, pat, 0) {
        let v = slice_chars(s, pat.len(), s.len());
        assert(v@ =~= s@.skip(pat@.len() as int));
        Some(v)
    } else {
        None
    }
}


/// `str::split_inclusive` by a character: the pieces, each with the
/// character that ends it (the last may lack one); none for an empty string.
pub open spec fn split_incl(s: Seq<char>, c: char) -> Seq<Seq<char>>
    decreases s.len(),
{
    if s.len() == 0 {
        Seq::empty()
    } else {
        match find_seq(s, seq![c]) {
            Some(i) => {
                proof {
                    lemma_find_from_bound(s, seq![c], 0);
                }
                seq![s.take(i + 1)] + split_incl(s.skip(i + 1), c)
            },
            None => seq![s],
        }
    }
}

/// A piece of `split_incl` by `\n` as `str::lines` gives it: without its
/// `\n`, and then without one `\r` before it.
pub open spec fn line_of(piece: Seq<char>) -> Seq<char> {
    if piece.len() > 0 && piece.last() == '\n' {
        let p = piece.drop_last();
        if p.len() > 0 && p.last() == '\r' {
            p.drop_last()
        } else {
            p
        }
    } else {
        piece
    }
}

/// `str::lines`.
pub open spec fn lines(s: Seq<char>) -> Seq<Seq<char>> {
    split_incl(s, '\n').map_values(|piece: Seq<char>| line_of(piece))
}

/// `pat` stands somewhere in `s`.
pub open spec fn contains_seq(s: Seq<char>, pat: Seq<char>) -> bool {
    find_seq(s, pat) is Some
}

/// Every occurrence of `pat`, from the left and not overlapping, replaced by
/// `rep` (`str::replace`, for a non-empty pattern).
pub open spec fn replace_all(s: Seq<char>, pat: Seq<char>, rep: Seq<char>) -> Seq<char>
    decreases s.len(),
{
    if pat.len() == 0 {
        s
    } else {
        match find_seq(s, pat) {
            Some(i) => {
                proof {
                    lemma_find_from_bound(s, pat, 0);
                }
                s.take(i) + rep + replace_all(s.skip(i + pat.len()), pat, rep)
            },
            None => s,
        }
    }
}

/// Splits after each `c` (see `split_incl`).
pub fn split_incl_exec(s: &[char], c: char) -> (r: Vec<Vec<char>>)
    ensures
        r@.map_values(|x: Vec<char>| x@) == split_incl(s@, c),
{
    let mut sep: Vec<char> = Vec::new();
    sep.push(c);
    assert(sep@ =~= seq![c]);
    let mut out: Vec<Vec<char>> = Vec::new();
    let mut rest = slice_chars(s, 0, s.len());
    assert(rest@ =~= s@);
    while rest.len() > 0
        invariant
            split_incl(s@, c) == out@.map_values(|x: Vec<char>| x@) + split_incl(rest@, c),
            sep@ == seq![c],
        decreases rest@.len(),
    {
        let ghost prev = out@.map_values(|x: Vec<char>| x@);
        match find_chars(rest.as_slice(), sep.as_slice()) {
            Some(i) => {
                proof {
                    lemma_find_from_bound(rest@, sep@, 0);
                    assert(sep@.len() == 1);
                }
                assert(i + 1 <= rest.len());
                let piece = slice_chars(rest.as_slice(), 0, i + 1);
                let next = slice_chars(rest.as_slice(), i + 1, rest.len());
                assert(piece@ =~= rest@.take(i + 1));
                assert(next@ =~= rest@.skip(i + 1));
                out.push(piece);
                assert(out@.map_values(|x: Vec<char>| x@) =~= prev.push(rest@.take(i + 1)));
                assert(prev + split_incl(rest@, c) =~= prev.push(rest@.take(i + 1)) + split_incl(next@, c));
                rest = next;
            },
            None => {
                out.push(rest);
                assert(out@.map_values(|x: Vec<char>| x@) =~= prev + split_incl(s@, c).skip(prev.len() as int));
                return out;
            },
        }
    }
    assert(out@.map_values(|x: Vec<char>| x@) =~= split_incl(s@, c));
    out
}

/// One line of `str::lines` from its piece.
pub fn line_of_exec(piece: &[char]) -> (r: Vec<char>)
    ensures
        r@ == line_of(piece@),
{
    let n = piece.len();
    if n > 0 && piece[n - 1] == '\n' {
        if n > 1 && piece[n - 2] == '\r' {
            let r = slice_chars(piece, 0, n - 2);
            assert(r@ =~= piece@.drop_last().drop_last());
            r
        } else {
            let r = slice_chars(piece, 0, n - 1);
            assert(r@ =~= piece@.drop_last());
            r
        }
    } else {
        let r = slice_chars(piece, 0, n);
        assert(r@ =~= piece@);
        r
    }
}

/// Appends the characters of `b` to `a`.
pub fn push_all(a: &mut Vec<char>, b: &[char])
    ensures
        final(a)@ == old(a)@ + b@,
{
    let ghost base = a@;
    let mut i: usize = 0;
    while i < b.len()
        invariant
            i <= b.len(),
            a@ == base + b@.take(i as int),
        decreases b.len() - i,
    {
        a.push(b[i]);
        i = i + 1;
        assert(a@ =~= base + b@.take(i as int));
    }
    assert(b@.take(i as int) =~= b@);
}

/// Replaces every occurrence of a non-empty `pat` (see `replace_all`).
pub fn replace_all_exec(s: &[char], pat: &[char], rep: &[char]) -> (r: Vec<char>)
    requires
        pat@.len() > 0,
    ensures
        r@ == replace_all(s@, pat@, rep@),
{
    let mut out: Vec<char> = Vec::new();
    let mut rest = slice_chars(s, 0, s.len());
    assert(rest@ =~= s@);
    loop
        invariant
            pat@.len() > 0,
            replace_all(s@, pat@, rep@) == out@ + replace_all(rest@, pat@, rep@),
        decreases rest@.len(),
    {
        match find_chars(rest.as_slice(), pat) {
            Some(i) => {
                proof {
                    lemma_find_from_bound(rest@, pat@, 0);
                }
                assert(i + pat.len() <= rest.len());
                let ghost prev = out@;
                let head = slice_chars(rest.as_slice(), 0, i);
                push_all(&mut out, head.as_slice());
                push_all(&mut out, rep);
                let next = slice_chars(rest.as_slice(), i + pat.len(), rest.len());
                assert(head@ =~= rest@.take(i as int));
                assert(next@ =~= rest@.skip(i + pat@.len()));
                assert(prev + replace_all(rest@, pat@, rep@) =~= out@ + replace_all(next@, pat@, rep@));
                rest = next;
            },
            None => {
                push_all(&mut out, rest.as_slice());
                return out;
            },
        }
    }
}


proof fn lemma_find_single_from(s: Seq<char>, c: char, i: int, k: int)
    requires
        0 <= i <= k <= s.len(),
        forall|j: int| i <= j < k ==> s[j] != c,
        k < s.len() ==> s[k] == c,
    ensures
        find_from(s, seq![c], i) == (if k < s.len() { Some(k) } else { None::<int> }),
    decreases k - i,
{
    if i < k {
        assert(s.subrange(i, i + 1) != seq![c]) by {
            assert(s.subrange(i, i + 1)[0] == s[i]);
        }
        lemma_find_single_from(s, c, i + 1, k);
    } else if k < s.len() {
        assert(s.subrange(k, k + 1) =~= seq![c]);
    }
}

/// The first position of a character is the first place where it stands.
pub proof fn lemma_find_single(s: Seq<char>, c: char, k: int)
    requires
        0 <= k <= s.len(),
        forall|j: int| 0 <= j < k ==> s[j] != c,
        k < s.len() ==> s[k] == c,
    ensures
        find_seq(s, seq![c]) == (if k < s.len() { Some(k) } else { None::<int> }),
{
    lemma_find_single_from(s, c, 0, k);
}


/// Pieces as `split_incl` by `c` makes them: none is empty, `c` stands only
/// at the end of a piece, and ends every piece but the last.
pub open spec fn pieces_ok(ps: Seq<Seq<char>>, c: char) -> bool {
    forall|k: int|
        0 <= k < ps.len() ==> {
            &&& (#[trigger] ps[k]).len() > 0
            &&& forall|j: int| 0 <= j < ps[k].len() - 1 ==> ps[k][j] != c
            &&& (k < ps.len() - 1 ==> ps[k].last() == c)
        }
}

/// The pieces of `split_incl` are as `pieces_ok` says, and put together
/// they give back the text.
pub proof fn lemma_split_incl_pieces(s: Seq<char>, c: char)
    ensures
        pieces_ok(split_incl(s, c), c),
        split_incl(s, c).flatten() == s,
    decreases s.len(),
{
    if s.len() > 0 {
        lemma_find_from_bound(s, seq![c], 0);
        match find_seq(s, seq![c]) {
            Some(i) => {
                let p0 = s.take(i + 1);
                let rest = s.skip(i + 1);
                lemma_split_incl_pieces(rest, c);
                let ps = split_incl(s, c);
                assert(ps == seq![p0] + split_incl(rest, c));
                assert(s.subrange(i, i + 1) == seq![c]);
                assert(s.subrange(i, i + 1)[0] == s[i]);
                assert(s[i] == c);
                assert(p0.last() == s[i]);
                assert(p0.len() > 0);
                assert forall|j: int| 0 <= j < i implies p0[j] != c by {
                    if s[j] == c {
                        lemma_find_single_first(s, c, j);
                    }
                }
                assert forall|k: int| 0 <= k < ps.len() implies {
                    &&& (#[trigger] ps[k]).len() > 0
                    &&& forall|j: int| 0 <= j < ps[k].len() - 1 ==> ps[k][j] != c
                    &&& (k < ps.len() - 1 ==> ps[k].last() == c)
                } by {
                    if k > 0 {
                        let q = split_incl(rest, c);
                        assert(ps[k] == q[k - 1]);
                        assert(q[k - 1].len() > 0);
                        assert(forall|j: int| 0 <= j < q[k - 1].len() - 1 ==> #[trigger] q[k - 1][j] != c);
                    } else {
                        assert(ps[0] == p0);
                    }
                }
                assert(ps.first() == p0);
                assert(ps.drop_first() =~= split_incl(rest, c));
                assert(p0 + rest =~= s);
            },
            None => {
                let ps = split_incl(s, c);
                assert(ps == seq![s]);
                assert forall|j: int| 0 <= j < s.len() implies s[j] != c by {
                    if s[j] == c {
                        lemma_find_single_first(s, c, j);
                    }
                }
                assert(ps.drop_first().len() == 0);
                ps.lemma_flatten_one_element();
            },
        }
    }
}

/// Where `c` stands at `j`, some first position of `c` is found, no later than `j`.
proof fn lemma_find_single_first(s: Seq<char>, c: char, j: int)
    requires
        0 <= j < s.len(),
        s[j] == c,
    ensures
        find_seq(s, seq![c]) matches Some(p) && p <= j,
{
    let k = choose|k: int| 0 <= k <= j && s[k] == c && forall|m: int| 0 <= m < k ==> s[m] != c;
    assert(exists|k: int| 0 <= k <= j && s[k] == c && forall|m: int| 0 <= m < k ==> s[m] != c) by {
        lemma_first_char_at(s, c, j, 0);
    }
    lemma_find_single(s, c, k);
}

proof fn lemma_first_char_at(s: Seq<char>, c: char, j: int, from: int)
    requires
        0 <= from <= j < s.len(),
        s[j] == c,
        forall|m: int| 0 <= m < from ==> s[m] != c,
    ensures
        exists|k: int| 0 <= k <= j && s[k] == c && forall|m: int| 0 <= m < k ==> s[m] != c,
    decreases j - from,
{
    if s[from] == c {
        assert(0 <= from <= j && s[from] == c && forall|m: int| 0 <= m < from ==> s[m] != c);
    } else {
        lemma_first_char_at(s, c, j, from + 1);
    }
}

/// Pieces as `pieces_ok` says, put together and split again, are the same
/// pieces.
pub proof fn lemma_split_flatten(ps: Seq<Seq<char>>, c: char)
    requires
        pieces_ok(ps, c),
    ensures
        split_incl(ps.flatten(), c) == ps,
    decreases ps.len(),
{
    if ps.len() > 0 {
        let p0 = ps[0];
        let t = ps.drop_first();
        assert(pieces_ok(t, c)) by {
            assert forall|k: int| 0 <= k < t.len() implies {
                &&& (#[trigger] t[k]).len() > 0
                &&& forall|j: int| 0 <= j < t[k].len() - 1 ==> t[k][j] != c
                &&& (k < t.len() - 1 ==> t[k].last() == c)
            } by {
                assert(t[k] == ps[k + 1]);
            }
        }
        lemma_split_flatten(t, c);
        let s = ps.flatten();
        assert(s == p0 + t.flatten());
        assert(ps[0].len() > 0);
        if p0.last() == c {
            let i = p0.len() - 1;
            assert forall|j: int| 0 <= j < i implies s[j] != c by {
                assert(s[j] == p0[j]);
            }
            assert(s[i] == p0[i]);
            lemma_find_single(s, c, i);
            assert(s.take(i + 1) =~= p0);
            assert(s.skip(i + 1) =~= t.flatten());
            assert(ps =~= seq![p0] + t);
            if t.len() == 0 {
                assert(split_incl(t.flatten(), c) =~= t);
            }
        } else {
            assert(t.len() == 0);
            assert(t.flatten().len() == 0);
            assert(s =~= p0);
            assert forall|j: int| 0 <= j < s.len() implies s[j] != c by {
                if j == s.len() - 1 {
                    assert(s[j] == p0.last());
                }
            }
            lemma_find_single(s, c, s.len() as int);
            assert(ps =~= seq![p0]);
        }
    }
}


/// `trim_start` drops a run of white space at the front and stops at a
/// character that is not white space.
pub proof fn lemma_trim_start_shape(s: Seq<char>)
    ensures
        trim_start(s).len() <= s.len(),
        trim_start(s) == s.skip(s.len() - trim_start(s).len()),
        forall|j: int| 0 <= j < s.len() - trim_start(s).len() ==> is_ws(#[trigger] s[j]),
        trim_start(s).len() > 0 ==> !is_ws(trim_start(s)[0]),
    decreases s.len(),
{
    if s.len() > 0 && is_ws(s[0]) {
        let t = s.drop_first();
        lemma_trim_start_shape(t);
        assert(t.skip(t.len() - trim_start(t).len()) =~= s.skip(s.len() - trim_start(s).len()));
        assert forall|j: int| 0 <= j < s.len() - trim_start(s).len() implies is_ws(#[trigger] s[j]) by {
            if j > 0 {
                assert(s[j] == t[j - 1]);
            }
        }
    } else {
        assert(s.skip(0) =~= s);
    }
}

/// White space put before a text that does not start with white space is
/// what `trim_start` drops.
pub proof fn lemma_trim_start_after_ws(a: Seq<char>, b: Seq<char>)
    requires
        forall|j: int| 0 <= j < a.len() ==> is_ws(#[trigger] a[j]),
        b.len() > 0 ==> !is_ws(b[0]),
    ensures
        trim_start(a + b) == b,
    decreases a.len(),
{
    if a.len() > 0 {
        assert((a + b)[0] == a[0]);
        assert((a + b).drop_first() =~= a.drop_first() + b);
        assert forall|j: int| 0 <= j < a.drop_first().len() implies is_ws(#[trigger] a.drop_first()[j]) by {
            assert(a.drop_first()[j] == a[j + 1]);
        }
        lemma_trim_start_after_ws(a.drop_first(), b);
    } else {
        assert(a + b =~= b);
    }
}


/// The first place where `pat` stands, from `i` on, is found again in a text
/// that agrees with this one on the first `l` characters, when it ends within
/// them.
pub proof fn lemma_find_agree(s1: Seq<char>, s2: Seq<char>, pat: Seq<char>, l: int, i: int, q: int)
    requires
        0 <= i <= q,
        find_from(s1, pat, i) == Some(q),
        q + pat.len() <= l,
        l <= s1.len(),
        l <= s2.len(),
        s1.take(l) == s2.take(l),
    ensures
        find_from(s2, pat, i) == Some(q),
    decreases q - i,
{
    lemma_find_from_bound(s1, pat, i);
    assert(s1.subrange(i, i + pat.len()) =~= s1.take(l).subrange(i, i + pat.len()));
    assert(s2.subrange(i, i + pat.len()) =~= s2.take(l).subrange(i, i + pat.len()));
    assert(matches_at(s1, pat, i) == matches_at(s2, pat, i));
    if i < q {
        assert(!matches_at(s1, pat, i));
        lemma_find_agree(s1, s2, pat, l, i + 1, q);
    }
}

/// Where `pat` stands nowhere before `q`, the first place from `i` on is `q`
/// if it stands there, and nowhere if it stands nowhere.
pub proof fn lemma_find_first_match(s: Seq<char>, pat: Seq<char>, i: int, q: int)
    requires
        0 <= i <= q,
        forall|p: int| i <= p < q ==> !matches_at(s, pat, p),
        matches_at(s, pat, q) || (q + pat.len() > s.len() && pat.len() > 0),
    ensures
        find_from(s, pat, i) == (if matches_at(s, pat, q) { Some(q) } else { None::<int> }),
    decreases q - i,
{
    if i < q {
        if i + pat.len() <= s.len() {
            assert(!matches_at(s, pat, i));
            lemma_find_first_match(s, pat, i + 1, q);
        }
    }
}

/// A line break followed by `[` in pieces put together, then `tail`: it can
/// stand inside them only where a piece ends and the next one starts with
/// `[` (or, after the last piece, `tail` does).
pub open spec fn opens_table(ps: Seq<Seq<char>>) -> bool {
    exists|k: int| 0 <= k < ps.len() - 1 && (#[trigger] ps[k + 1])[0] == '['
}

pub proof fn lemma_open_in_pieces(ps: Seq<Seq<char>>, tail: Seq<char>)
    requires
        pieces_ok(ps, '\n'),
    ensures
        (exists|p: int| 0 <= p < ps.flatten().len() && matches_at(ps.flatten() + tail, seq!['\n', '['], p)) <==> (opens_table(ps)
            || (ps.len() > 0 && ps.last().last() == '\n' && tail.len() > 0 && tail[0] == '[')),
    decreases ps.len(),
{
    let nl = seq!['\n', '['];
    if ps.len() > 0 {
        let p0 = ps[0];
        let r = ps.drop_first();
        assert(pieces_ok(r, '\n')) by {
            assert forall|k: int| 0 <= k < r.len() implies {
                &&& (#[trigger] r[k]).len() > 0
                &&& forall|j: int| 0 <= j < r[k].len() - 1 ==> r[k][j] != '\n'
                &&& (k < r.len() - 1 ==> r[k].last() == '\n')
            } by {
                assert(r[k] == ps[k + 1]);
            }
        }
        lemma_open_in_pieces(r, tail);
        let s = ps.flatten() + tail;
        let s1 = r.flatten() + tail;
        assert(ps.flatten() == p0 + r.flatten());
        assert(s =~= p0 + s1);
        assert(p0.len() > 0);
        let m: int = p0.len() as int;
        // A match inside the rest is a match of the rest.
        assert forall|p: int| m <= p < s.len() implies #[trigger] matches_at(s, nl, p) == matches_at(s1, nl, p - m) by {
            if p + 2 <= s.len() {
                assert(s.subrange(p, p + 2) =~= s1.subrange(p - m, p - m + 2));
            }
        }
        // The only place inside the first piece is its end.
        assert forall|p: int| 0 <= p < m - 1 implies !#[trigger] matches_at(s, nl, p) by {
            if matches_at(s, nl, p) {
                assert(s.subrange(p, p + 2)[0] == s[p]);
                assert(s[p] == p0[p]);
            }
        }
        let first_next = if s1.len() > 0 { s1[0] == '[' } else { false };
        assert(matches_at(s, nl, m - 1) <==> (p0.last() == '\n' && first_next)) by {
            if m + 1 <= s.len() {
                assert(s.subrange(m - 1, m + 1) =~= seq![s[m - 1], s[m]]);
                assert(s[m - 1] == p0.last());
                assert(s[m] == s1[0]);
            }
        }
        if r.len() > 0 {
            assert(r[0].len() > 0);
            assert(s1[0] == r[0][0]);
            assert(r.flatten() == r[0] + r.drop_first().flatten());
            assert(p0.last() == '\n');
        } else {
            assert(r.flatten().len() == 0);
            assert(s1 =~= tail);
            assert(ps.last() == p0);
        }
        // Putting the cases together.
        if opens_table(ps) || (ps.last().last() == '\n' && tail.len() > 0 && tail[0] == '[') {
            if opens_table(ps) {
                let k = choose|k: int| 0 <= k < ps.len() - 1 && (#[trigger] ps[k + 1])[0] == '[';
                if k == 0 {
                    assert(matches_at(s, nl, m - 1));
                } else {
                    let k1 = k - 1;
                    assert(r[k1 + 1] == ps[k + 1]);
                    assert(0 <= k1 < r.len() - 1 && (r[k1 + 1])[0] == '[');
                    assert(opens_table(r));
                    let p = choose|p: int| 0 <= p < r.flatten().len() && matches_at(r.flatten() + tail, nl, p);
                    assert(matches_at(s, nl, p + m));
                }
            } else if r.len() > 0 {
                assert(ps.last() == r.last());
                let p = choose|p: int| 0 <= p < r.flatten().len() && matches_at(r.flatten() + tail, nl, p);
                assert(matches_at(s, nl, p + m));
            } else {
                assert(matches_at(s, nl, m - 1));
            }
        } else {
            assert forall|p: int| 0 <= p < ps.flatten().len() implies !matches_at(s, nl, p) by {
                if p >= m {
                    if matches_at(s1, nl, p - m) {
                        if r.len() > 0 {
                            assert(ps.last() == r.last());
                        }
                        assert(opens_table(r) || (r.len() > 0 && r.last().last() == '\n' && tail.len() > 0 && tail[0] == '['));
                        if opens_table(r) {
                            let k = choose|k: int| 0 <= k < r.len() - 1 && (#[trigger] r[k + 1])[0] == '[';
                            assert(ps[k + 2] == r[k + 1]);
                        }
                    }
                } else if p == m - 1 {
                    if r.len() > 0 {
                        assert(ps[1] == r[0]);
                    }
                }
            }
        }
    } else {
        assert(ps.flatten().len() == 0);
    }
}


/// Before the first place from `i` on where `pat` stands, it stands nowhere.
pub proof fn lemma_find_before(s: Seq<char>, pat: Seq<char>, i: int, q: int)
    requires
        0 <= i,
        find_from(s, pat, i) == Some(q),
    ensures
        forall|p: int| i <= p < q ==> !matches_at(s, pat, p),
    decreases q - i,
{
    lemma_find_from_bound(s, pat, i);
    if i < q {
        lemma_find_before(s, pat, i + 1, q);
    }
}

/// Where nothing is found from `i` on, `pat` stands nowhere from `i` on.
pub proof fn lemma_find_none(s: Seq<char>, pat: Seq<char>, i: int)
    requires
        0 <= i,
        find_from(s, pat, i) is None,
    ensures
        forall|p: int| i <= p ==> !matches_at(s, pat, p),
    decreases s.len() + 1 - i,
{
    if i + pat.len() <= s.len() {
        lemma_find_none(s, pat, i + 1);
    }
}

} // verus!

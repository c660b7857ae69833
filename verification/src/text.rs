//! Text on character sequences: searching, splitting and trimming, stated
//! over `Seq<char>` and carried out on character vectors.
use vstd::prelude::*;
use vstd::utf8::{decode_utf8, valid_utf8};

verus! {

/// `pat` occurs in `s` starting at index `i`.
pub open spec fn occurs_at(s: Seq<char>, pat: Seq<char>, i: int) -> bool {
    &&& 0 <= i
    &&& i + pat.len() <= s.len()
    &&& s.subrange(i, i + pat.len()) == pat
}

/// The index of the first occurrence of `pat` in `s` that starts at or after
/// `from`, if there is one.
pub open spec fn find_from(s: Seq<char>, pat: Seq<char>, from: int) -> Option<int>
    decreases s.len() - from,
{
    if from < 0 || from >= s.len() || from + pat.len() > s.len() {
        None
    } else if occurs_at(s, pat, from) {
        Some(from)
    } else {
        find_from(s, pat, from + 1)
    }
}

/// `pat` occurs somewhere in `s`.
pub open spec fn contains_seq(s: Seq<char>, pat: Seq<char>) -> bool {
    find_from(s, pat, 0) is Some
}

/// What `find_from` finds is the leftmost occurrence at or after `from`.
pub proof fn lemma_find_from(s: Seq<char>, pat: Seq<char>, from: int)
    requires
        pat.len() > 0,
        0 <= from,
    ensures
        find_from(s, pat, from) matches Some(i) ==> {
            &&& from <= i
            &&& occurs_at(s, pat, i)
            &&& forall|j: int| from <= j < i ==> !occurs_at(s, pat, j)
        },
        find_from(s, pat, from) is None ==> forall|j: int| from <= j ==> !occurs_at(s, pat, j),
    decreases s.len() - from,
{
    if from >= s.len() || from + pat.len() > s.len() {
    } else if occurs_at(s, pat, from) {
    } else {
        lemma_find_from(s, pat, from + 1);
    }
}

/// The pieces of `s[start..]` between the occurrences of `pat`, taken left to
/// right without overlap, as `str::split` yields them.
pub open spec fn split_from(s: Seq<char>, pat: Seq<char>, start: int) -> Seq<Seq<char>>
    decreases s.len() - start,
{
    if pat.len() == 0 || start < 0 || start > s.len() {
        seq![]
    } else {
        match find_from(s, pat, start) {
            Some(i) => {
                proof {
                    lemma_find_from(s, pat, start);
                }
                seq![s.subrange(start, i)] + split_from(s, pat, i + pat.len())
            },
            None => seq![s.subrange(start, s.len() as int)],
        }
    }
}

/// The pieces of `s` between the occurrences of the non-empty pattern `pat`.
pub open spec fn split(s: Seq<char>, pat: Seq<char>) -> Seq<Seq<char>> {
    split_from(s, pat, 0)
}

/// The views of a sequence of character vectors.
pub open spec fn seqs_of(v: Seq<Vec<char>>) -> Seq<Seq<char>> {
    v.map_values(|x: Vec<char>| x@)
}

/// The views of a sequence of strings.
pub open spec fn texts_of(v: Seq<String>) -> Seq<Seq<char>> {
    v.map_values(|x: String| x@)
}

/// Appends `c` to `s`, through `String::push`.
#[verifier::external_body]
fn push_char(s: &mut String, c: char)
    ensures
        final(s)@ == old(s)@.push(c),
{
    s.push(c)
}

/// The characters of `s`, in order.
pub fn chars_of(s: &str) -> (r: Vec<char>)
    ensures
        r@ == s@,
{
    let mut r: Vec<char> = Vec::new();
    for c in it: s.chars()
        invariant
            r@ == it.seq().take(it.index() as int),
    {
        r.push(c);
    }
    r
}

/// The string made of the characters of `v`.
pub fn string_of(v: &[char]) -> (r: String)
    ensures
        r@ == v@,
{
    let mut r = String::new();
    let mut i: usize = 0;
    while i < v.len()
        invariant
            0 <= i <= v@.len(),
            r@ == v@.take(i as int),
        decreases v@.len() - i,
    {
        push_char(&mut r, v[i]);
        assert(v@.take(i + 1) =~= v@.take(i as int).push(v@[i as int]));
        i = i + 1;
    }
    assert(v@.take(v@.len() as int) =~= v@);
    r
}


/// The characters `s[from..to]`.
pub fn sub_chars(s: &[char], from: usize, to: usize) -> (r: Vec<char>)
    requires
        from <= to <= s@.len(),
    ensures
        r@ == s@.subrange(from as int, to as int),
{
    let mut r: Vec<char> = Vec::new();
    let mut i: usize = from;
    while i < to
        invariant
            from <= i <= to <= s@.len(),
            r@ == s@.subrange(from as int, i as int),
        decreases to - i,
    {
        r.push(s[i]);
        assert(s@.subrange(from as int, i + 1) =~= s@.subrange(from as int, i as int).push(
            s@[i as int],
        ));
        i = i + 1;
    }
    r
}

/// Whether `a` and `b` hold the same characters.
pub fn same_chars(a: &[char], b: &[char]) -> (r: bool)
    ensures
        r == (a@ == b@),
{
    if a.len() != b.len() {
        return false;
    }
    let mut i: usize = 0;
    while i < a.len()
        invariant
            a@.len() == b@.len(),
            0 <= i <= a@.len(),
            forall|j: int| 0 <= j < i ==> a@[j] == b@[j],
        decreases a@.len() - i,
    {
        if a[i] != b[i] {
            return false;
        }
        i = i + 1;
    }
    assert(a@ =~= b@);
    true
}

/// Whether `pat` occurs in `s` at index `i`.
fn occurs_at_index(s: &[char], pat: &[char], i: usize) -> (r: bool)
    ensures
        r == occurs_at(s@, pat@, i as int),
{
    if i > s.len() || pat.len() > s.len() - i {
        return false;
    }
    let n: usize = s.len();
    let mut k: usize = 0;
    while k < pat.len()
        invariant
            n == s@.len(),
            i + pat@.len() <= s@.len(),
            0 <= k <= pat@.len(),
            forall|j: int| 0 <= j < k ==> s@[i + j] == pat@[j],
        decreases pat@.len() - k,
    {
        if s[i + k] != pat[k] {
            assert(s@.subrange(i as int, i + pat@.len())[k as int] != pat@[k as int]);
            return false;
        }
        k = k + 1;
    }
    assert(s@.subrange(i as int, i + pat@.len()) =~= pat@);
    true
}

/// The index of the first occurrence of `pat` in `s` at or after `from`.
pub fn find_chars(s: &[char], pat: &[char], from: usize) -> (r: Option<usize>)
    ensures
        r matches Some(i) ==> find_from(s@, pat@, from as int) == Some(i as int),
        r is None ==> find_from(s@, pat@, from as int) is None,
{
    let mut i: usize = from;
    while i < s.len() && pat.len() <= s.len() - i
        invariant
            from <= i,
            find_from(s@, pat@, from as int) == find_from(s@, pat@, i as int),
        decreases s@.len() - i,
    {
        if occurs_at_index(s, pat, i) {
            return Some(i);
        }
        i = i + 1;
    }
    None
}

/// The pieces of `s` between the occurrences of `pat`, as `str::split` yields
/// them.
pub fn split_chars(s: &[char], pat: &[char]) -> (r: Vec<Vec<char>>)
    requires
        pat@.len() > 0,
    ensures
        seqs_of(r@) == split(s@, pat@),
{
    let mut r: Vec<Vec<char>> = Vec::new();
    let n: usize = s.len();
    let mut start: usize = 0;
    loop
        invariant
            n == s@.len(),
            pat@.len() > 0,
            0 <= start <= s@.len(),
            split(s@, pat@) == seqs_of(r@) + split_from(s@, pat@, start as int),
        decreases s@.len() - start,
    {
        proof {
            lemma_find_from(s@, pat@, start as int);
        }
        match find_chars(s, pat, start) {
            Some(i) => {
                let piece = sub_chars(s, start, i);
                let ghost old_r = r@;
                r.push(piece);
                assert(seqs_of(r@) =~= seqs_of(old_r).push(piece@));
                assert(seqs_of(r@) + split_from(s@, pat@, i + pat@.len()) =~= seqs_of(old_r)
                    + split_from(s@, pat@, start as int));
                start = i + pat.len();
            },
            None => {
                let piece = sub_chars(s, start, s.len());
                let ghost old_r = r@;
                r.push(piece);
                assert(seqs_of(r@) =~= seqs_of(old_r).push(piece@));
                assert(seqs_of(r@) =~= seqs_of(old_r) + split_from(s@, pat@, start as int));
                return r;
            },
        }
    }
}

/// `c` has the Unicode `White_Space` property, as `char::is_whitespace`
/// tests it.
pub open spec fn is_white_space(c: char) -> bool {
    let u = c as u32;
    ||| 0x09 <= u <= 0x0d
    ||| u == 0x20
    ||| u == 0x85
    ||| u == 0xa0
    ||| u == 0x1680
    ||| 0x2000 <= u <= 0x200a
    ||| u == 0x2028
    ||| u == 0x2029
    ||| u == 0x202f
    ||| u == 0x205f
    ||| u == 0x3000
}

/// Whether `c` is white space.
pub fn white_space(c: char) -> (r: bool)
    ensures
        r == is_white_space(c),
{
    let u = c as u32;
    (0x09 <= u && u <= 0x0d) || u == 0x20 || u == 0x85 || u == 0xa0 || u == 0x1680 || (0x2000
        <= u && u <= 0x200a) || u == 0x2028 || u == 0x2029 || u == 0x202f || u == 0x205f || u
        == 0x3000
}

/// The index of the first character at or after `i` that is not white space,
/// or the length of `s` when there is none.
pub open spec fn skip_white_space(s: Seq<char>, i: int) -> int
    decreases s.len() - i,
{
    if 0 <= i < s.len() && is_white_space(s[i]) {
        skip_white_space(s, i + 1)
    } else {
        i
    }
}

/// `s` without its leading white space, as `str::trim_start` gives it.
pub open spec fn trim_start(s: Seq<char>) -> Seq<char> {
    s.skip(skip_white_space(s, 0))
}

/// `s` without its leading white space.
pub fn trim_start_chars(s: &[char]) -> (r: Vec<char>)
    ensures
        r@ == trim_start(s@),
{
    let mut i: usize = 0;
    while i < s.len() && white_space(s[i])
        invariant
            0 <= i <= s@.len(),
            skip_white_space(s@, 0) == skip_white_space(s@, i as int),
        decreases s@.len() - i,
    {
        i = i + 1;
    }
    let r = sub_chars(s, i, s.len());
    assert(r@ =~= s@.skip(i as int));
    r
}

/// `s` cut at its first occurrence of `pat`: the text before it and the text
/// after it, as `str::split_once` gives them.
pub open spec fn split_once(s: Seq<char>, pat: Seq<char>) -> Option<(Seq<char>, Seq<char>)> {
    match find_from(s, pat, 0) {
        Some(i) => Some((s.take(i), s.skip(i + pat.len()))),
        None => None,
    }
}

/// `s` cut at its first occurrence of `pat`.
pub fn split_once_chars(s: &[char], pat: &[char]) -> (r: Option<(Vec<char>, Vec<char>)>)
    requires
        pat@.len() > 0,
    ensures
        match r {
            Some((a, b)) => split_once(s@, pat@) == Some((a@, b@)),
            None => split_once(s@, pat@) is None,
        },
{
    proof {
        lemma_find_from(s@, pat@, 0);
    }
    let n: usize = s.len();
    assert(n == s@.len());
    match find_chars(s, pat, 0) {
        Some(i) => {
            let a = sub_chars(s, 0, i);
            let b = sub_chars(s, i + pat.len(), s.len());
            assert(a@ =~= s@.take(i as int));
            assert(b@ =~= s@.skip(i + pat@.len()));
            Some((a, b))
        },
        None => None,
    }
}

/// The non-empty pieces of `ps`, in order.
pub open spec fn drop_empty(ps: Seq<Seq<char>>) -> Seq<Seq<char>>
    decreases ps.len(),
{
    if ps.len() == 0 {
        seq![]
    } else if ps.last().len() > 0 {
        drop_empty(ps.drop_last()).push(ps.last())
    } else {
        drop_empty(ps.drop_last())
    }
}

/// The non-empty pieces of `ps`, in order.
pub fn drop_empty_pieces(ps: Vec<Vec<char>>) -> (r: Vec<Vec<char>>)
    ensures
        seqs_of(r@) == drop_empty(seqs_of(ps@)),
{
    let mut r: Vec<Vec<char>> = Vec::new();
    let mut i: usize = 0;
    while i < ps.len()
        invariant
            0 <= i <= ps@.len(),
            seqs_of(r@) == drop_empty(seqs_of(ps@).take(i as int)),
        decreases ps@.len() - i,
    {
        let ghost old_r = r@;
        assert(seqs_of(ps@).take(i + 1).drop_last() =~= seqs_of(ps@).take(i as int));
        if ps[i].len() > 0 {
            r.push(ps[i].clone());
            assert(seqs_of(r@) =~= seqs_of(old_r).push(ps@[i as int]@));
        }
        i = i + 1;
    }
    assert(seqs_of(ps@).take(ps@.len() as int) =~= seqs_of(ps@));
    r
}

/// The strings made of the character vectors of `v`.
pub fn strings_of(v: &Vec<Vec<char>>) -> (r: Vec<String>)
    ensures
        texts_of(r@) == seqs_of(v@),
{
    let mut r: Vec<String> = Vec::new();
    let mut i: usize = 0;
    while i < v.len()
        invariant
            0 <= i <= v@.len(),
            texts_of(r@) == seqs_of(v@).take(i as int),
        decreases v@.len() - i,
    {
        let ghost old_r = r@;
        let t = string_of(v[i].as_slice());
        assert(t@ == v@[i as int]@);
        r.push(t);
        assert(texts_of(r@) =~= texts_of(old_r).push(t@));
        assert(seqs_of(v@).take(i + 1) =~= seqs_of(v@).take(i as int).push(v@[i as int]@));
        i = i + 1;
    }
    assert(seqs_of(v@).take(v@.len() as int) =~= seqs_of(v@));
    r
}

/// Whether `v[..end]` holds `x`.
pub fn prefix_contains(v: &Vec<Vec<char>>, end: usize, x: &[char]) -> (r: bool)
    requires
        end <= v@.len(),
    ensures
        r == seqs_of(v@).take(end as int).contains(x@),
{
    let mut k: usize = 0;
    while k < end
        invariant
            end <= v@.len(),
            0 <= k <= end,
            forall|j: int| 0 <= j < k ==> v@[j]@ != x@,
        decreases end - k,
    {
        if same_chars(v[k].as_slice(), x) {
            assert(seqs_of(v@).take(end as int)[k as int] == x@);
            return true;
        }
        k = k + 1;
    }
    assert(forall|j: int|
        0 <= j < end ==> #[trigger] seqs_of(v@).take(end as int)[j] == v@[j]@);
    false
}

/// What `str::to_lowercase` makes of a text: each character replaced by its
/// Unicode lowercase mapping.
pub uninterp spec fn lowercase(s: Seq<char>) -> Seq<char>;

/// Calls `str::to_lowercase`, which maps each character to its Unicode
/// lowercase.  Its result is named `lowercase` of the input; the Unicode
/// case tables behind it are not stated here.
#[verifier::external_body]
pub(crate) fn to_lowercase(s: &str) -> (r: String)
    ensures
        r@ == lowercase(s@),
{
    s.to_lowercase()
}

/// Decodes `bytes` as UTF-8 through `String::from_utf8`: a string exactly
/// when the bytes are valid UTF-8, holding the characters they encode.
#[verifier::external_body]
pub(crate) fn decode_utf8_string(bytes: Vec<u8>) -> (r: Option<String>)
    ensures
        r is Some <==> valid_utf8(bytes@),
        r matches Some(s) ==> s@ == decode_utf8(bytes@),
{
    match String::from_utf8(bytes) {
        Ok(s) => Some(s),
        Err(_) => None,
    }
}

/// The index of the last occurrence of `c` in `s`, as `str::rfind` finds it
/// (counted in characters).
pub open spec fn last_index_of(s: Seq<char>, c: char) -> Option<int>
    decreases s.len(),
{
    if s.len() == 0 {
        None
    } else if s.last() == c {
        Some(s.len() - 1)
    } else {
        last_index_of(s.drop_last(), c)
    }
}

/// A last occurrence lies in `s` and holds `c`.
pub proof fn lemma_last_index_of(s: Seq<char>, c: char)
    ensures
        last_index_of(s, c) matches Some(i) ==> 0 <= i < s.len() && s[i] == c && forall|j: int|
            i < j < s.len() ==> s[j] != c,
        last_index_of(s, c) is None ==> forall|j: int| 0 <= j < s.len() ==> s[j] != c,
    decreases s.len(),
{
    if s.len() > 0 && s.last() != c {
        lemma_last_index_of(s.drop_last(), c);
        assert(forall|j: int| 0 <= j < s.len() - 1 ==> s.drop_last()[j] == s[j]);
    }
}

/// The index of the last occurrence of `c` in `s`.
pub fn last_index_of_char(s: &[char], c: char) -> (r: Option<usize>)
    ensures
        match r {
            Some(i) => last_index_of(s@, c) == Some(i as int),
            None => last_index_of(s@, c) is None,
        },
{
    let mut k: usize = s.len();
    assert(s@.take(k as int) =~= s@);
    while k > 0
        invariant
            0 <= k <= s@.len(),
            last_index_of(s@, c) == last_index_of(s@.take(k as int), c),
        decreases k,
    {
        assert(s@.take(k as int).drop_last() =~= s@.take(k - 1));
        if s[k - 1] == c {
            return Some(k - 1);
        }
        k = k - 1;
    }
    None
}

/// `a` followed by `b`.
pub fn joined(a: &[char], b: &[char]) -> (r: Vec<char>)
    ensures
        r@ == a@ + b@,
{
    let mut r = sub_chars(a, 0, a.len());
    assert(a@.subrange(0, a@.len() as int) =~= a@);
    let mut i: usize = 0;
    while i < b.len()
        invariant
            0 <= i <= b@.len(),
            r@ == a@ + b@.take(i as int),
        decreases b@.len() - i,
    {
        r.push(b[i]);
        assert(a@ + b@.take(i + 1) =~= (a@ + b@.take(i as int)).push(b@[i as int]));
        i = i + 1;
    }
    assert(b@.take(b@.len() as int) =~= b@);
    r
}

/// The piece of `s` that starts at `k` runs to `e` when no occurrence of
/// `pat` starts in between and one starts at `e` (or `e` is the end); the
/// next piece then starts after that occurrence.
pub proof fn lemma_piece_until(s: Seq<char>, pat: Seq<char>, k: int, e: int)
    requires
        pat.len() > 0,
        0 <= k <= e <= s.len(),
        forall|j: int| k <= j < e ==> !occurs_at(s, pat, j),
        e == s.len() || occurs_at(s, pat, e),
    ensures
        split_from(s, pat, k).len() >= 1,
        split_from(s, pat, k)[0] == s.subrange(k, e),
        e < s.len() ==> split_from(s, pat, k).len() >= 2 && split_from(s, pat, k)[1] == split_from(
            s,
            pat,
            e + pat.len(),
        )[0],
        e < s.len() ==> split_from(s, pat, k) == seq![s.subrange(k, e)] + split_from(
            s,
            pat,
            e + pat.len(),
        ),
        e == s.len() ==> split_from(s, pat, k) == seq![s.subrange(k, e)],
{
    lemma_find_from(s, pat, k);
    if e < s.len() {
        match find_from(s, pat, k) {
            Some(i) => {
                assert(i == e);
                lemma_find_from(s, pat, e + pat.len());
                let rest = split_from(s, pat, e + pat.len());
                assert(rest.len() >= 1);
                assert(split_from(s, pat, k) == seq![s.subrange(k, e)] + rest);
                assert((seq![s.subrange(k, e)] + rest)[1] == rest[0]);
            },
            None => {},
        }
    } else {
        match find_from(s, pat, k) {
            Some(i) => {
                assert(i + pat.len() <= s.len());
                assert(false);
            },
            None => {},
        }
    }
}

/// An occurrence of `c` with none after it is the last one.
pub proof fn lemma_last_index_at(s: Seq<char>, c: char, k: int)
    requires
        0 <= k < s.len(),
        s[k] == c,
        forall|j: int| k < j < s.len() ==> s[j] != c,
    ensures
        last_index_of(s, c) == Some(k),
{
    lemma_last_index_of(s, c);
}

/// The first occurrence of `pat` at or after `k` is at `e` when one starts at
/// `e` and none in between.
pub proof fn lemma_find_first(s: Seq<char>, pat: Seq<char>, k: int, e: int)
    requires
        pat.len() > 0,
        0 <= k <= e,
        forall|j: int| k <= j < e ==> !occurs_at(s, pat, j),
        occurs_at(s, pat, e),
    ensures
        find_from(s, pat, k) == Some(e),
{
    lemma_find_from(s, pat, k);
}

/// A single-character pattern occurs exactly where that character stands.
pub proof fn lemma_occurs_single(s: Seq<char>, c: char, j: int)
    ensures
        occurs_at(s, seq![c], j) <==> 0 <= j < s.len() && s[j] == c,
{
    if 0 <= j < s.len() {
        if s[j] == c {
            assert(s.subrange(j, j + 1) =~= seq![c]);
        } else {
            assert(s.subrange(j, j + 1)[0] == s[j]);
        }
    }
}

/// Cutting `a + [c] + b` at its first `c` gives `a` and `b` when `a` holds
/// no `c`.
pub proof fn lemma_split_once_single(a: Seq<char>, c: char, b: Seq<char>)
    requires
        !a.contains(c),
    ensures
        split_once(a + seq![c] + b, seq![c]) == Some((a, b)),
{
    let s = a + seq![c] + b;
    assert forall|j: int| 0 <= j < a.len() implies !occurs_at(s, seq![c], j) by {
        lemma_occurs_single(s, c, j);
        assert(s[j] == a[j]);
    }
    lemma_occurs_single(s, c, a.len() as int);
    lemma_find_first(s, seq![c], 0, a.len() as int);
    assert(s.take(a.len() as int) =~= a);
    assert(s.skip(a.len() as int + 1) =~= b);
}

/// The first of the non-empty pieces is the first piece, when that is not
/// empty.
pub proof fn lemma_drop_empty_first(ps: Seq<Seq<char>>)
    requires
        ps.len() > 0,
        ps[0].len() > 0,
    ensures
        drop_empty(ps).len() > 0,
        drop_empty(ps)[0] == ps[0],
    decreases ps.len(),
{
    if ps.len() > 1 {
        assert(ps.drop_last()[0] == ps[0]);
        lemma_drop_empty_first(ps.drop_last());
        let prev = drop_empty(ps.drop_last());
        if ps.last().len() > 0 {
            assert(drop_empty(ps) == prev.push(ps.last()));
            assert(prev.push(ps.last())[0] == prev[0]);
        }
    } else {
        assert(ps.drop_last() =~= Seq::<Seq<char>>::empty());
        assert(ps.last() == ps[0]);
        assert(drop_empty(ps) == drop_empty(ps.drop_last()).push(ps[0]));
    }
}

/// The lines `ls`, each followed by a line break.
pub open spec fn join_lines(ls: Seq<Seq<char>>) -> Seq<char>
    decreases ls.len(),
{
    if ls.len() == 0 {
        seq![]
    } else {
        ls[0] + seq!['\n'] + join_lines(ls.drop_first())
    }
}

/// Searching from `k + i` in `s` is searching from `i` in `s[k..]`, shifted
/// by `k`.
pub proof fn lemma_find_shift(s: Seq<char>, pat: Seq<char>, k: int, i: int)
    requires
        pat.len() > 0,
        0 <= k <= s.len(),
        0 <= i,
    ensures
        find_from(s, pat, k + i) == match find_from(s.skip(k), pat, i) {
            Some(j) => Some(j + k),
            None => None::<int>,
        },
    decreases s.len() - k - i,
{
    let t = s.skip(k);
    if k + i >= s.len() || k + i + pat.len() > s.len() {
    } else {
        assert(s.subrange(k + i, k + i + pat.len()) =~= t.subrange(i, i + pat.len()));
        if !occurs_at(s, pat, k + i) {
            lemma_find_shift(s, pat, k, i + 1);
        }
    }
}

/// The pieces of `s` from `k + i` are the pieces of `s[k..]` from `i`.
pub proof fn lemma_split_shift(s: Seq<char>, pat: Seq<char>, k: int, i: int)
    requires
        pat.len() > 0,
        0 <= k <= s.len(),
        0 <= i,
    ensures
        split_from(s, pat, k + i) == split_from(s.skip(k), pat, i),
    decreases s.len() - k - i,
{
    let t = s.skip(k);
    if k + i <= s.len() {
        lemma_find_shift(s, pat, k, i);
        lemma_find_from(t, pat, i);
        match find_from(t, pat, i) {
            Some(j) => {
                assert(s.subrange(k + i, j + k) =~= t.subrange(i, j));
                lemma_split_shift(s, pat, k, j + pat.len());
                assert(k + (j + pat.len()) == j + k + pat.len());
            },
            None => {
                assert(s.subrange(k + i, s.len() as int) =~= t.subrange(i, t.len() as int));
            },
        }
    }
}

/// Lines joined with line breaks split back into those lines and an empty
/// last piece.
pub proof fn lemma_split_joined_lines(ls: Seq<Seq<char>>)
    requires
        forall|i: int| 0 <= i < ls.len() ==> !(#[trigger] ls[i]).contains('\n'),
    ensures
        split(join_lines(ls), seq!['\n']) == ls.push(seq![]),
    decreases ls.len(),
{
    let nl = seq!['\n'];
    let s = join_lines(ls);
    if ls.len() == 0 {
        assert(s =~= Seq::<char>::empty());
        assert(find_from(s, nl, 0) is None);
        assert(s.subrange(0, 0) =~= Seq::<char>::empty());
        assert(split(s, nl) =~= seq![Seq::<char>::empty()]);
        assert(ls.push(seq![]) =~= seq![Seq::<char>::empty()]);
    } else {
        let first = ls[0];
        let rest = ls.drop_first();
        assert forall|i: int| 0 <= i < rest.len() implies !(#[trigger] rest[i]).contains('\n') by {
            assert(rest[i] == ls[i + 1]);
        }
        lemma_split_joined_lines(rest);
        let n = first.len() as int;
        assert forall|j: int| 0 <= j < n implies !occurs_at(s, nl, j) by {
            lemma_occurs_single(s, '\n', j);
            assert(s[j] == first[j]);
        }
        lemma_occurs_single(s, '\n', n);
        lemma_piece_until(s, nl, 0, n);
        lemma_split_shift(s, nl, n + 1, 0);
        assert(s.skip(n + 1) =~= join_lines(rest));
        assert(s.subrange(0, n) =~= first);
        assert(split(s, nl) =~= ls.push(seq![]));
    }
}

/// Non-empty pieces stay as they are.
pub proof fn lemma_drop_empty_keeps(ps: Seq<Seq<char>>)
    requires
        forall|i: int| 0 <= i < ps.len() ==> (#[trigger] ps[i]).len() > 0,
    ensures
        drop_empty(ps) == ps,
        drop_empty(ps.push(seq![])) == ps,
    decreases ps.len(),
{
    if ps.len() > 0 {
        lemma_drop_empty_keeps(ps.drop_last());
        assert(ps.drop_last().push(ps.last()) =~= ps);
    } else {
        assert(ps =~= seq![]);
    }
    assert(ps.push(seq![]).drop_last() =~= ps);
}

/// The empty text splits into one empty piece.
pub proof fn lemma_split_empty(pat: Seq<char>)
    requires
        pat.len() > 0,
    ensures
        split(Seq::<char>::empty(), pat) == seq![Seq::<char>::empty()],
{
    let s = Seq::<char>::empty();
    assert(find_from(s, pat, 0) is None);
    assert(s.subrange(0, 0) =~= Seq::<char>::empty());
}

/// Cutting `x + [c] + y` at every `c`, from index `k` of `x` on, gives the
/// pieces of `x` from `k` followed by the pieces of `y`.
pub proof fn lemma_split_concat_from(x: Seq<char>, c: char, y: Seq<char>, k: int)
    requires
        0 <= k <= x.len(),
    ensures
        split_from(x + seq![c] + y, seq![c], k) == split_from(x, seq![c], k) + split(y, seq![c]),
    decreases x.len() - k,
{
    let s = x + seq![c] + y;
    let p = seq![c];
    lemma_find_from(x, p, k);
    match find_from(x, p, k) {
        Some(i) => {
            lemma_occurs_single(x, c, i);
            lemma_occurs_single(s, c, i);
            assert(s[i] == x[i]);
            assert forall|j: int| k <= j < i implies !occurs_at(s, p, j) by {
                lemma_occurs_single(x, c, j);
                lemma_occurs_single(s, c, j);
                assert(s[j] == x[j]);
            }
            lemma_piece_until(s, p, k, i);
            lemma_piece_until(x, p, k, i);
            lemma_split_concat_from(x, c, y, i + 1);
            assert(s.subrange(k, i) =~= x.subrange(k, i));
            assert(split_from(s, p, k) =~= split_from(x, p, k) + split(y, p));
        },
        None => {
            assert forall|j: int| k <= j < x.len() implies !occurs_at(s, p, j) by {
                lemma_occurs_single(x, c, j);
                lemma_occurs_single(s, c, j);
                assert(s[j] == x[j]);
            }
            lemma_occurs_single(s, c, x.len() as int);
            lemma_piece_until(s, p, k, x.len() as int);
            assert forall|j: int| k <= j < x.len() implies !occurs_at(x, p, j) by {}
            lemma_piece_until(x, p, k, x.len() as int);
            lemma_split_shift(s, p, x.len() as int + 1, 0);
            assert(s.skip(x.len() as int + 1) =~= y);
            assert(s.subrange(k, x.len() as int) =~= x.subrange(k, x.len() as int));
            assert(split_from(s, p, k) =~= split_from(x, p, k) + split(y, p));
        },
    }
}

/// Cutting `x + [c] + y` at every `c` gives the pieces of `x` followed by
/// the pieces of `y`.
pub proof fn lemma_split_concat(x: Seq<char>, c: char, y: Seq<char>)
    ensures
        split(x + seq![c] + y, seq![c]) == split(x, seq![c]) + split(y, seq![c]),
{
    lemma_split_concat_from(x, c, y, 0);
}

/// Dropping the empty pieces of two runs of pieces one after the other.
pub proof fn lemma_drop_empty_concat(p: Seq<Seq<char>>, q: Seq<Seq<char>>)
    ensures
        drop_empty(p + q) == drop_empty(p) + drop_empty(q),
    decreases q.len(),
{
    if q.len() == 0 {
        assert(p + q =~= p);
        assert(drop_empty(p) + drop_empty(q) =~= drop_empty(p));
    } else {
        lemma_drop_empty_concat(p, q.drop_last());
        assert((p + q).drop_last() =~= p + q.drop_last());
        assert((p + q).last() == q.last());
        if q.last().len() > 0 {
            assert(drop_empty(p) + drop_empty(q.drop_last()).push(q.last()) =~= (drop_empty(p)
                + drop_empty(q.drop_last())).push(q.last()));
        }
    }
}

/// Joined lines end with a line break.
pub proof fn lemma_join_lines_ends_with_break(ls: Seq<Seq<char>>)
    requires
        ls.len() > 0,
    ensures
        join_lines(ls).len() > 0,
        join_lines(ls).last() == '\n',
        join_lines(ls).drop_last() + seq!['\n'] == join_lines(ls),
    decreases ls.len(),
{
    let rest = ls.drop_first();
    if rest.len() > 0 {
        lemma_join_lines_ends_with_break(rest);
    } else {
        assert(join_lines(rest) =~= Seq::<char>::empty());
    }
    let j = join_lines(ls);
    assert(j == ls[0] + seq!['\n'] + join_lines(rest));
    assert(j.drop_last() + seq!['\n'] =~= j);
}

} // verus!

//! Text as a sequence of characters: the splitting, trimming, parsing and
//! rendering that the rest of the library is written in.
use vstd::prelude::*;

verus! {

/// The character sequences of a list of strings.
pub open spec fn texts(v: Seq<String>) -> Seq<Seq<char>> {
    Seq::new(v.len(), |i: int| v[i]@)
}

/// Appending a string to a list appends its characters to the list's texts.
pub broadcast proof fn lemma_texts_push(v: Seq<String>, s: String)
    ensures
        #[trigger] texts(v.push(s)) == texts(v).push(s@),
{
    assert(texts(v.push(s)) =~= texts(v).push(s@));
}

/// `String::push` appends one character and leaves what was there in place.
pub assume_specification[ String::push ](s: &mut String, c: char)
    ensures
        final(s)@ == old(s)@.push(c),
;

/// The characters of a string, in order.
pub fn chars_of(s: &str) -> (r: Vec<char>)
    ensures
        r@ == s@,
{
    let mut out: Vec<char> = Vec::new();
    for c in it: s.chars()
        invariant
            it.seq() == s@,
            out@ == s@.take(it.index() as int),
    {
        proof {
            assert(s@.take(it.index() as int + 1) =~= s@.take(it.index() as int).push(c));
        }
        out.push(c);
    }
    assert(s@.take(s@.len() as int) =~= s@);
    out
}

/// The string made of a run of characters.
pub fn text_of(v: &Vec<char>) -> (r: String)
    ensures
        r@ == v@,
{
    let mut out = String::new();
    for i in 0..v.len()
        invariant
            out@ == v@.take(i as int),
    {
        proof {
            assert(v@.take(i + 1) =~= v@.take(i as int).push(v@[i as int]));
        }
        out.push(v[i]);
    }
    assert(v@.take(v@.len() as int) =~= v@);
    out
}

/// The string made of the characters from `from` up to but excluding `to`.
pub fn text_between(v: &Vec<char>, from: usize, to: usize) -> (r: String)
    requires
        from <= to <= v@.len(),
    ensures
        r@ == v@.subrange(from as int, to as int),
{
    let mut out = String::new();
    for i in from..to
        invariant
            from <= to <= v@.len(),
            out@ == v@.subrange(from as int, i as int),
    {
        proof {
            assert(v@.subrange(from as int, i + 1) =~= v@.subrange(from as int, i as int).push(
                v@[i as int],
            ));
        }
        out.push(v[i]);
    }
    out
}

/// Whether two strings hold the same characters.
pub fn same(a: &str, b: &str) -> (r: bool)
    ensures
        r == (a@ == b@),
{
    let x: String = a.to_owned();
    let y: String = b.to_owned();
    x == y
}

/// Whether any string of the list holds the characters of `needle`.
pub fn any_same(list: &Vec<String>, needle: &str) -> (r: bool)
    ensures
        r == texts(list@).contains(needle@),
{
    for i in 0..list.len()
        invariant
            forall|j: int| 0 <= j < i ==> list@[j]@ != needle@,
    {
        if same(&list[i], needle) {
            assert(texts(list@)[i as int] == needle@);
            return true;
        }
    }
    false
}

/// A character with the Unicode White_Space property.
pub open spec fn is_space(c: char) -> bool {
    let u = c as u32;
    ||| 9 <= u <= 13
    ||| u == 0x20
    ||| u == 0x85
    ||| u == 0xa0
    ||| u == 0x1680
    ||| 0x2000 <= u <= 0x200a
    ||| u == 0x2028
    ||| u == 0x2029
    ||| u == 0x202f
    ||| u == 0x205f
    ||| u == 0x3000
}

/// Whether a character is white space.
pub fn is_whitespace(c: char) -> (r: bool)
    ensures
        r == is_space(c),
{
    let u: u32 = c as u32;
    (9 <= u && u <= 13) || u == 0x20 || u == 0x85 || u == 0xa0 || u == 0x1680 || (0x2000 <= u && u
        <= 0x200a) || u == 0x2028 || u == 0x2029 || u == 0x202f || u == 0x205f || u == 0x3000
}

/// A text without its leading white space.
pub open spec fn trimmed_start(s: Seq<char>) -> Seq<char>
    decreases s.len(),
{
    if s.len() > 0 && is_space(s[0]) {
        trimmed_start(s.drop_first())
    } else {
        s
    }
}

/// A text without its trailing white space.
pub open spec fn trimmed_end(s: Seq<char>) -> Seq<char>
    decreases s.len(),
{
    if s.len() > 0 && is_space(s.last()) {
        trimmed_end(s.drop_last())
    } else {
        s
    }
}

/// A text without white space at either end.
pub open spec fn trimmed(s: Seq<char>) -> Seq<char> {
    trimmed_end(trimmed_start(s))
}

/// The text without its leading white space.
pub fn trim_start(s: &str) -> (r: String)
    ensures
        r@ == trimmed_start(s@),
{
    let v = chars_of(s);
    let mut i: usize = 0;
    assert(v@.skip(0) =~= v@);
    while i < v.len() && is_whitespace(v[i])
        invariant
            i <= v@.len(),
            v@ == s@,
            trimmed_start(s@) == trimmed_start(v@.skip(i as int)),
        ensures
            i <= v@.len(),
            trimmed_start(s@) == trimmed_start(v@.skip(i as int)),
            i < v@.len() ==> !is_space(v@[i as int]),
        decreases v@.len() - i,
    {
        assert(v@.skip(i as int).drop_first() =~= v@.skip(i + 1));
        i = i + 1;
    }
    assert(v@.skip(i as int) =~= v@.subrange(i as int, v@.len() as int));
    text_between(&v, i, v.len())
}

/// The text without its trailing white space.
pub fn trim_end(s: &str) -> (r: String)
    ensures
        r@ == trimmed_end(s@),
{
    let v = chars_of(s);
    let mut i: usize = v.len();
    assert(v@.take(i as int) =~= v@);
    while i > 0 && is_whitespace(v[i - 1])
        invariant
            i <= v@.len(),
            v@ == s@,
            trimmed_end(s@) == trimmed_end(v@.take(i as int)),
        ensures
            i <= v@.len(),
            trimmed_end(s@) == trimmed_end(v@.take(i as int)),
            i > 0 ==> !is_space(v@[i - 1]),
        decreases i,
    {
        assert(v@.take(i as int).drop_last() =~= v@.take(i - 1));
        i = i - 1;
    }
    assert(v@.take(i as int) =~= v@.subrange(0, i as int));
    text_between(&v, 0, i)
}

/// The text without white space at either end.
pub fn trim(s: &str) -> (r: String)
    ensures
        r@ == trimmed(s@),
{
    let front = trim_start(s);
    trim_end(&front)
}

/// The pieces a text falls into when it is cut at every `sep`. There is always
/// one piece more than there are separators.
pub open spec fn pieces(s: Seq<char>, sep: char) -> Seq<Seq<char>>
    decreases s.len(),
{
    if s.len() == 0 {
        seq![Seq::<char>::empty()]
    } else {
        let before = pieces(s.drop_last(), sep);
        if s.last() == sep {
            before.push(Seq::<char>::empty())
        } else {
            before.drop_last().push(before.last().push(s.last()))
        }
    }
}

/// A text always has a piece.
pub broadcast proof fn lemma_pieces_nonempty(s: Seq<char>, sep: char)
    ensures
        (#[trigger] pieces(s, sep)).len() > 0,
    decreases s.len(),
{
    if s.len() > 0 {
        lemma_pieces_nonempty(s.drop_last(), sep);
    }
}

/// Cuts a text at every `sep`.
pub fn split_on(s: &str, sep: char) -> (r: Vec<String>)
    ensures
        texts(r@) == pieces(s@, sep),
{
    broadcast use lemma_texts_push;

    let v = chars_of(s);
    let mut out: Vec<String> = Vec::new();
    let mut current = String::new();
    assert(texts(out@).push(current@) =~= pieces(v@.take(0), sep));
    for i in 0..v.len()
        invariant
            texts(out@).push(current@) == pieces(v@.take(i as int), sep),
    {
        broadcast use lemma_texts_push;

        let c = v[i];
        assert(v@.take(i + 1).drop_last() =~= v@.take(i as int));
        let ghost before = pieces(v@.take(i as int), sep);
        assert(before.last() == current@);
        assert(before.drop_last() =~= texts(out@));
        if c == sep {
            out.push(current);
            current = String::new();
        } else {
            current.push(c);
        }
    }
    assert(v@.take(v@.len() as int) =~= s@);
    out.push(current);
    out
}

/// The runs of a text that hold no white space.
pub open spec fn words(s: Seq<char>) -> Seq<Seq<char>>
    decreases s.len(),
{
    if s.len() == 0 {
        Seq::empty()
    } else {
        let before = words(s.drop_last());
        if is_space(s.last()) {
            before
        } else if s.len() > 1 && !is_space(s[s.len() - 2]) && before.len() > 0 {
            before.drop_last().push(before.last().push(s.last()))
        } else {
            before.push(seq![s.last()])
        }
    }
}

/// Cuts a text into its words.
pub fn split_words(s: &str) -> (r: Vec<String>)
    ensures
        texts(r@) == words(s@),
{
    broadcast use lemma_texts_push;

    let v = chars_of(s);
    let mut out: Vec<String> = Vec::new();
    let mut current = String::new();
    let mut inside: bool = false;
    assert(texts(out@) =~= words(v@.take(0)));
    for i in 0..v.len()
        invariant
            inside == (i > 0 && !is_space(v@[i - 1])),
            !inside ==> texts(out@) == words(v@.take(i as int)),
            inside ==> texts(out@).push(current@) == words(v@.take(i as int)),
    {
        broadcast use lemma_texts_push;

        let c = v[i];
        assert(v@.take(i + 1).drop_last() =~= v@.take(i as int));
        let ghost before = words(v@.take(i as int));
        if is_whitespace(c) {
            if inside {
                out.push(current);
                current = String::new();
            }
            inside = false;
        } else {
            if inside {
                assert(before.last() == current@);
                assert(before.drop_last() =~= texts(out@));
            } else {
                current = String::new();
            }
            let ghost was = current@;
            current.push(c);
            assert(!inside ==> current@ =~= seq![c]);
            inside = true;
        }
    }
    assert(v@.take(v@.len() as int) =~= s@);
    if inside {
        out.push(current);
    }
    out
}

/// A line without the carriage return that stands before its line feed.
pub open spec fn without_cr(s: Seq<char>) -> Seq<char> {
    if s.len() > 0 && s.last() == '\r' {
        s.drop_last()
    } else {
        s
    }
}

/// The lines of a text. A line ends at a line feed, with or without a carriage
/// return before it, and a last line that is empty is no line.
pub open spec fn lines(s: Seq<char>) -> Seq<Seq<char>> {
    let cut = pieces(s, '\n');
    let ended = Seq::new((cut.len() - 1) as nat, |i: int| without_cr(cut[i]));
    if cut.last().len() > 0 {
        ended.push(cut.last())
    } else {
        ended
    }
}

/// Cuts a text into its lines.
pub fn split_lines(s: &str) -> (r: Vec<String>)
    ensures
        texts(r@) == lines(s@),
{
    broadcast use {lemma_texts_push, lemma_pieces_nonempty};

    let cut = split_on(s, '\n');
    let mut out: Vec<String> = Vec::new();
    let ghost all = pieces(s@, '\n');
    assert(all.len() == cut@.len());
    assert(texts(out@) =~= Seq::new(0, |k: int| without_cr(all[k])));
    for i in 0..cut.len() - 1
        invariant
            texts(cut@) == all,
            cut@.len() > 0,
            all == pieces(s@, '\n'),
            texts(out@) == Seq::new(i as nat, |k: int| without_cr(all[k])),
    {
        broadcast use lemma_texts_push;

        let line = chars_of(&cut[i]);
        assert(cut@[i as int]@ == all[i as int]);
        if line.len() > 0 && line[line.len() - 1] == '\r' {
            let bare = text_between(&line, 0, line.len() - 1);
            assert(bare@ =~= without_cr(all[i as int]));
            out.push(bare);
        } else {
            out.push(cut[i].clone());
        }
        assert(texts(out@) =~= Seq::new((i + 1) as nat, |k: int| without_cr(all[k])));
    }
    let last = &cut[cut.len() - 1];
    assert(last@ == all.last());
    if !last.as_str().is_empty() {
        out.push(last.clone());
    }
    out
}

/// Where `c` first stands in `s`.
pub open spec fn first_index(s: Seq<char>, c: char) -> Option<int>
    decreases s.len(),
{
    if s.len() == 0 {
        None
    } else {
        match first_index(s.drop_last(), c) {
            Some(i) => Some(i),
            None => if s.last() == c {
                Some(s.len() - 1)
            } else {
                None
            },
        }
    }
}

/// Where `c` last stands in `s`.
pub open spec fn last_index(s: Seq<char>, c: char) -> Option<int>
    decreases s.len(),
{
    if s.len() == 0 {
        None
    } else if s.last() == c {
        Some(s.len() - 1)
    } else {
        last_index(s.drop_last(), c)
    }
}

/// The first index is in range, holds the character, and nothing before it does.
pub proof fn lemma_first_index(s: Seq<char>, c: char)
    ensures
        match first_index(s, c) {
            Some(i) => 0 <= i < s.len() && s[i] == c && forall|j: int|
                0 <= j < i ==> s[j] != c,
            None => !s.contains(c),
        },
    decreases s.len(),
{
    if s.len() > 0 {
        lemma_first_index(s.drop_last(), c);
        if first_index(s, c) is None {
            assert forall|j: int| 0 <= j < s.len() implies s[j] != c by {
                if j < s.len() - 1 {
                    assert(s.drop_last()[j] == s[j]);
                }
            }
        } else if first_index(s.drop_last(), c) is None {
            assert forall|j: int| 0 <= j < s.len() - 1 implies s[j] != c by {
                assert(s.drop_last()[j] == s[j]);
            }
        } else {
            let i = first_index(s, c)->0;
            assert forall|j: int| 0 <= j < i implies s[j] != c by {
                assert(s.drop_last()[j] == s[j]);
            }
        }
    }
}

/// The last index is in range, holds the character, and nothing after it does.
pub proof fn lemma_last_index(s: Seq<char>, c: char)
    ensures
        match last_index(s, c) {
            Some(i) => 0 <= i < s.len() && s[i] == c && forall|j: int|
                i < j < s.len() ==> s[j] != c,
            None => !s.contains(c),
        },
    decreases s.len(),
{
    if s.len() > 0 && s.last() != c {
        lemma_last_index(s.drop_last(), c);
        assert forall|j: int| 0 <= j < s.len() - 1 implies s[j] == s.drop_last()[j] by {}
        if last_index(s, c) is None {
            assert forall|j: int| 0 <= j < s.len() implies s[j] != c by {
                if j < s.len() - 1 {
                    assert(s.drop_last()[j] == s[j]);
                    assert(s.drop_last().contains(s.drop_last()[j]));
                }
            }
        }
    }
}

/// A text cut at the first `c`: what stands before it and what stands after.
pub open spec fn cut_first(s: Seq<char>, c: char) -> Option<(Seq<char>, Seq<char>)> {
    match first_index(s, c) {
        Some(i) => Some((s.take(i), s.skip(i + 1))),
        None => None,
    }
}

/// A text cut at the last `c`.
pub open spec fn cut_last(s: Seq<char>, c: char) -> Option<(Seq<char>, Seq<char>)> {
    match last_index(s, c) {
        Some(i) => Some((s.take(i), s.skip(i + 1))),
        None => None,
    }
}

/// The characters of a pair of strings.
pub open spec fn pair_text(p: Option<(String, String)>) -> Option<(Seq<char>, Seq<char>)> {
    match p {
        Some((a, b)) => Some((a@, b@)),
        None => None,
    }
}

/// Cuts a text at the first `c`.
pub fn split_once(s: &str, c: char) -> (r: Option<(String, String)>)
    ensures
        pair_text(r) == cut_first(s@, c),
{
    let v = chars_of(s);
    for i in 0..v.len()
        invariant
            v@ == s@,
            first_index(v@.take(i as int), c) is None,
    {
        assert(v@.take(i + 1).drop_last() =~= v@.take(i as int));
        if v[i] == c {
            proof {
                lemma_first_index_prefix(v@, c, i + 1);
            }
            let before = text_between(&v, 0, i);
            let after = text_between(&v, i + 1, v.len());
            assert(before@ =~= s@.take(i as int));
            assert(after@ =~= s@.skip(i + 1));
            return Some((before, after));
        }
    }
    assert(v@.take(v@.len() as int) =~= s@);
    None
}

/// An index found in a prefix is the index in the whole.
proof fn lemma_first_index_prefix(s: Seq<char>, c: char, n: int)
    requires
        0 <= n <= s.len(),
        first_index(s.take(n), c) is Some,
    ensures
        first_index(s, c) == first_index(s.take(n), c),
    decreases s.len() - n,
{
    if n == s.len() {
        assert(s.take(n) =~= s);
    } else {
        assert(s.take(n + 1).drop_last() =~= s.take(n));
        lemma_first_index_prefix(s, c, n + 1);
    }
}

/// Cuts a text at the last `c`.
pub fn rsplit_once(s: &str, c: char) -> (r: Option<(String, String)>)
    ensures
        pair_text(r) == cut_last(s@, c),
{
    let v = chars_of(s);
    let mut i: usize = v.len();
    assert(v@.take(i as int) =~= s@);
    while i > 0
        invariant
            i <= v@.len(),
            v@ == s@,
            last_index(s@, c) == last_index(v@.take(i as int), c),
        decreases i,
    {
        assert(v@.take(i as int).drop_last() =~= v@.take(i - 1));
        if v[i - 1] == c {
            let before = text_between(&v, 0, i - 1);
            let after = text_between(&v, i, v.len());
            assert(before@ =~= s@.take(i - 1));
            assert(after@ =~= s@.skip(i as int));
            return Some((before, after));
        }
        i = i - 1;
    }
    None
}

/// Whether a text begins with `prefix`.
pub fn starts_with(s: &str, prefix: &str) -> (r: bool)
    ensures
        r == prefix@.is_prefix_of(s@),
{
    let v = chars_of(s);
    let p = chars_of(prefix);
    if p.len() > v.len() {
        return false;
    }
    for i in 0..p.len()
        invariant
            p@.len() <= v@.len(),
            v@ == s@,
            p@ == prefix@,
            forall|j: int| 0 <= j < i ==> p@[j] == v@[j],
    {
        if p[i] != v[i] {
            assert(s@.subrange(0, prefix@.len() as int)[i as int] != prefix@[i as int]);
            return false;
        }
    }
    assert(s@.subrange(0, prefix@.len() as int) =~= prefix@);
    true
}

/// Whether a text ends with `suffix`.
pub fn ends_with(s: &str, suffix: &str) -> (r: bool)
    ensures
        r == suffix@.is_suffix_of(s@),
{
    let v = chars_of(s);
    let p = chars_of(suffix);
    if p.len() > v.len() {
        return false;
    }
    let off: usize = v.len() - p.len();
    for i in 0..p.len()
        invariant
            p@.len() + off == v.len(),
            v@ == s@,
            p@ == suffix@,
            forall|j: int| 0 <= j < i ==> p@[j] == v@[j + off],
    {
        if p[i] != v[i + off] {
            assert(s@.subrange(off as int, s@.len() as int)[i as int] != suffix@[i as int]);
            return false;
        }
    }
    assert(s@.subrange(off as int, s@.len() as int) =~= suffix@);
    true
}

/// What is left of a text behind `prefix`, if it begins with it.
pub open spec fn behind(s: Seq<char>, prefix: Seq<char>) -> Option<Seq<char>> {
    if prefix.is_prefix_of(s) {
        Some(s.skip(prefix.len() as int))
    } else {
        None
    }
}

/// What is left of a text before `suffix`, if it ends with it.
pub open spec fn ahead_of(s: Seq<char>, suffix: Seq<char>) -> Option<Seq<char>> {
    if suffix.is_suffix_of(s) {
        Some(s.take(s.len() - suffix.len()))
    } else {
        None
    }
}

/// The characters of a string that may be absent.
pub open spec fn text_opt(s: Option<String>) -> Option<Seq<char>> {
    match s {
        Some(t) => Some(t@),
        None => None,
    }
}

/// Takes `prefix` off the front of a text.
pub fn strip_prefix(s: &str, prefix: &str) -> (r: Option<String>)
    ensures
        text_opt(r) == behind(s@, prefix@),
{
    if starts_with(s, prefix) {
        let v = chars_of(s);
        let n = chars_of(prefix).len();
        let rest = text_between(&v, n, v.len());
        assert(rest@ =~= s@.skip(prefix@.len() as int));
        Some(rest)
    } else {
        None
    }
}

/// Takes `suffix` off the end of a text.
pub fn strip_suffix(s: &str, suffix: &str) -> (r: Option<String>)
    ensures
        text_opt(r) == ahead_of(s@, suffix@),
{
    if ends_with(s, suffix) {
        let v = chars_of(s);
        let n = chars_of(suffix).len();
        let rest = text_between(&v, 0, v.len() - n);
        assert(rest@ =~= s@.take(s@.len() - suffix@.len()));
        Some(rest)
    } else {
        None
    }
}

/// `needle` stands in `s` at position `i`.
pub open spec fn stands_at(s: Seq<char>, needle: Seq<char>, i: int) -> bool {
    &&& 0 <= i
    &&& i + needle.len() <= s.len()
    &&& s.subrange(i, i + needle.len()) == needle
}

/// `needle` stands somewhere in `s`.
pub open spec fn occurs(s: Seq<char>, needle: Seq<char>) -> bool {
    exists|i: int| stands_at(s, needle, i)
}

/// Whether `needle` stands in `v` at position `at`.
fn matches_at(v: &Vec<char>, needle: &Vec<char>, at: usize) -> (r: bool)
    requires
        at + needle@.len() <= v.len(),
    ensures
        r == stands_at(v@, needle@, at as int),
{
    for k in 0..needle.len()
        invariant
            at + needle@.len() <= v.len(),
            forall|j: int| 0 <= j < k ==> needle@[j] == v@[at + j],
    {
        if needle[k] != v[at + k] {
            assert(v@.subrange(at as int, at + needle@.len())[k as int] != needle@[k as int]);
            return false;
        }
    }
    assert(v@.subrange(at as int, at + needle@.len()) =~= needle@);
    true
}

/// Whether `needle` stands anywhere in `s`.
pub fn contains(s: &str, needle: &str) -> (r: bool)
    ensures
        r == occurs(s@, needle@),
{
    let v = chars_of(s);
    let p = chars_of(needle);
    if p.len() > v.len() {
        return false;
    }
    let last: usize = v.len() - p.len();
    for i in 0..last
        invariant
            last + p@.len() == v.len(),
            v@ == s@,
            p@ == needle@,
            forall|j: int| 0 <= j < i ==> !stands_at(s@, needle@, j),
    {
        if matches_at(&v, &p, i) {
            return true;
        }
    }
    matches_at(&v, &p, last)
}

/// `s` with every `from` replaced by `to`.
pub open spec fn replaced(s: Seq<char>, from: char, to: Seq<char>) -> Seq<char>
    decreases s.len(),
{
    if s.len() == 0 {
        Seq::empty()
    } else if s.last() == from {
        replaced(s.drop_last(), from, to) + to
    } else {
        replaced(s.drop_last(), from, to).push(s.last())
    }
}

/// Replaces every `from` in a text by `to`.
pub fn replace_char(s: &str, from: char, to: &str) -> (r: String)
    ensures
        r@ == replaced(s@, from, to@),
{
    let v = chars_of(s);
    let mut out = String::new();
    assert(out@ =~= replaced(v@.take(0), from, to@));
    for i in 0..v.len()
        invariant
            out@ == replaced(v@.take(i as int), from, to@),
    {
        assert(v@.take(i + 1).drop_last() =~= v@.take(i as int));
        if v[i] == from {
            out.append(to);
        } else {
            out.push(v[i]);
        }
    }
    assert(v@.take(v@.len() as int) =~= s@);
    out
}

/// Texts written one after the other with `sep` between them.
pub open spec fn joined(parts: Seq<Seq<char>>, sep: Seq<char>) -> Seq<char>
    decreases parts.len(),
{
    if parts.len() == 0 {
        Seq::empty()
    } else if parts.len() == 1 {
        parts[0]
    } else {
        joined(parts.drop_last(), sep) + sep + parts.last()
    }
}

/// Writes texts one after the other with `sep` between them.
pub fn join(parts: &Vec<String>, sep: &str) -> (r: String)
    ensures
        r@ == joined(texts(parts@), sep@),
{
    let mut out = String::new();
    let ghost all = texts(parts@);
    assert(out@ =~= joined(all.take(0), sep@));
    for i in 0..parts.len()
        invariant
            all == texts(parts@),
            out@ == joined(all.take(i as int), sep@),
    {
        assert(all.take(i + 1).drop_last() =~= all.take(i as int));
        if i > 0 {
            out.append(sep);
        }
        out.append(parts[i].as_str());
        assert(i == 0 ==> out@ =~= all[0]);
    }
    assert(all.take(all.len() as int) =~= all);
    out
}

/// A decimal digit.
pub open spec fn is_digit(c: char) -> bool {
    '0' <= c <= '9'
}

/// The value of a decimal digit.
pub open spec fn digit_value(c: char) -> int {
    c as u32 - '0' as u32
}

/// The number that a run of decimal digits writes.
pub open spec fn digits_value(s: Seq<char>) -> int
    decreases s.len(),
{
    if s.len() == 0 {
        0
    } else {
        digits_value(s.drop_last()) * 10 + digit_value(s.last())
    }
}

/// Every character is a decimal digit.
pub open spec fn all_digits(s: Seq<char>) -> bool {
    forall|i: int| 0 <= i < s.len() ==> is_digit(#[trigger] s[i])
}

/// The number at most `max` that a text writes in decimal, with an optional
/// plus sign in front.
pub open spec fn unsigned_value(s: Seq<char>, max: int) -> Option<int> {
    let body = if s.len() > 0 && s[0] == '+' {
        s.drop_first()
    } else {
        s
    };
    if body.len() > 0 && all_digits(body) && digits_value(body) <= max {
        Some(digits_value(body))
    } else {
        None
    }
}

/// A longer run of digits writes no smaller number.
proof fn lemma_digits_monotone(s: Seq<char>, n: int)
    requires
        0 <= n <= s.len(),
        all_digits(s),
    ensures
        0 <= digits_value(s.take(n)) <= digits_value(s),
    decreases s.len() - n, s.len(),
{
    if n == s.len() {
        assert(s.take(n) =~= s);
        if n > 0 {
            assert(all_digits(s.drop_last())) by {
                assert forall|i: int| 0 <= i < s.drop_last().len() implies is_digit(
                    #[trigger] s.drop_last()[i],
                ) by {
                    assert(is_digit(s[i]));
                }
            }
            lemma_digits_monotone(s.drop_last(), n - 1);
            assert(s.drop_last().take(n - 1) =~= s.drop_last());
            assert(is_digit(s[n - 1]));
        }
    } else {
        lemma_digits_monotone(s, n + 1);
        assert(s.take(n + 1).drop_last() =~= s.take(n));
        assert(all_digits(s.take(n))) by {
            assert forall|i: int| 0 <= i < s.take(n).len() implies is_digit(
                #[trigger] s.take(n)[i],
            ) by {
                assert(is_digit(s[i]));
            }
        }
        lemma_digits_monotone(s.take(n), n);
        assert(s.take(n).take(n) =~= s.take(n));
        assert(is_digit(s[n]));
    }
}

/// Reads a number of at most `max`.
fn parse_unsigned(s: &str, max: u64) -> (r: Option<u64>)
    ensures
        match r {
            Some(n) => unsigned_value(s@, max as int) == Some(n as int),
            None => unsigned_value(s@, max as int) is None,
        },
{
    let v = chars_of(s);
    let start: usize = if v.len() > 0 && v[0] == '+' {
        1
    } else {
        0
    };
    let ghost body = v@.skip(start as int);
    assert(start == 1 ==> body =~= s@.drop_first());
    assert(start == 0 ==> body =~= s@);
    if v.len() == start {
        return None;
    }
    let mut value: u64 = 0;
    for i in start..v.len()
        invariant
            v@ == s@,
            start <= v@.len(),
            body == v@.skip(start as int),
            unsigned_value(s@, max as int) == (if body.len() > 0 && all_digits(body)
                && digits_value(body) <= max {
                Some(digits_value(body))
            } else {
                None
            }),
            value as int == digits_value(body.take(i - start)),
            value <= max,
            forall|j: int| 0 <= j < i - start ==> is_digit(#[trigger] body[j]),
    {
        let c = v[i];
        let ghost k = i - start;
        assert(body[k] == c);
        if !('0' <= c && c <= '9') {
            assert(!is_digit(body[k]));
            return None;
        }
        let d: u64 = c as u64 - '0' as u64;
        assert(body.take(k + 1).drop_last() =~= body.take(k));
        assert(digits_value(body.take(k + 1)) == value * 10 + d);
        if value > (u64::MAX - d) / 10 || value * 10 + d > max {
            proof {
                if all_digits(body) {
                    lemma_digits_monotone(body, k + 1);
                }
            }
            return None;
        }
        value = value * 10 + d;
    }
    assert(body.take(body.len() as int) =~= body);
    assert(all_digits(body));
    Some(value)
}

/// Reads a `u64` in decimal.
pub fn parse_u64(s: &str) -> (r: Option<u64>)
    ensures
        match r {
            Some(n) => unsigned_value(s@, u64::MAX as int) == Some(n as int),
            None => unsigned_value(s@, u64::MAX as int) is None,
        },
{
    parse_unsigned(s, u64::MAX)
}

/// Reads a `u32` in decimal.
pub fn parse_u32(s: &str) -> (r: Option<u32>)
    ensures
        match r {
            Some(n) => unsigned_value(s@, u32::MAX as int) == Some(n as int),
            None => unsigned_value(s@, u32::MAX as int) is None,
        },
{
    match parse_unsigned(s, u32::MAX as u64) {
        Some(n) => Some(n as u32),
        None => None,
    }
}

/// Whether a text writes a `u16` in decimal.
pub fn is_u16(s: &str) -> (r: bool)
    ensures
        r == (unsigned_value(s@, u16::MAX as int) is Some),
{
    parse_unsigned(s, u16::MAX as u64).is_some()
}

/// The `i32` that a text writes in decimal, with an optional sign in front.
pub open spec fn i32_value(s: Seq<char>) -> Option<int> {
    if s.len() > 0 && s[0] == '-' {
        let body = s.drop_first();
        if body.len() > 0 && all_digits(body) && digits_value(body) <= 0x8000_0000 {
            Some(-digits_value(body))
        } else {
            None
        }
    } else {
        unsigned_value(s, i32::MAX as int)
    }
}

/// Reads an `i32` in decimal.
pub fn parse_i32(s: &str) -> (r: Option<i32>)
    ensures
        match r {
            Some(n) => i32_value(s@) == Some(n as int),
            None => i32_value(s@) is None,
        },
{
    let v = chars_of(s);
    if v.len() > 0 && v[0] == '-' {
        let body = text_between(&v, 1, v.len());
        assert(body@ =~= s@.drop_first());
        let b = chars_of(&body);
        if b.len() > 0 && b[0] == '+' {
            assert(!is_digit(body@[0]));
            return None;
        }
        match parse_unsigned(&body, 0x8000_0000) {
            Some(n) => Some((0 - n as i64) as i32),
            None => None,
        }
    } else {
        match parse_unsigned(s, 0x7fff_ffff) {
            Some(n) => Some(n as i32),
            None => None,
        }
    }
}

/// The first position at or after `i` where `needle` stands in `s`.
pub open spec fn found_from(s: Seq<char>, needle: Seq<char>, i: int) -> Option<int>
    decreases s.len() + 1 - i,
{
    if i < 0 || i + needle.len() > s.len() {
        None
    } else if stands_at(s, needle, i) {
        Some(i)
    } else {
        found_from(s, needle, i + 1)
    }
}

/// What stands before and after the first `needle` in `s`.
pub open spec fn cut_text(s: Seq<char>, needle: Seq<char>) -> Option<(Seq<char>, Seq<char>)> {
    match found_from(s, needle, 0) {
        Some(i) => Some((s.take(i), s.skip(i + needle.len()))),
        None => None,
    }
}

/// Cuts a text at the first `needle`.
pub fn split_text(s: &str, needle: &str) -> (r: Option<(String, String)>)
    ensures
        pair_text(r) == cut_text(s@, needle@),
{
    let v = chars_of(s);
    let p = chars_of(needle);
    if p.len() > v.len() {
        return None;
    }
    let last: usize = v.len() - p.len();
    let mut i: usize = 0;
    while i <= last
        invariant
            last + p@.len() == v.len(),
            i <= last + 1,
            v@ == s@,
            p@ == needle@,
            found_from(s@, needle@, 0) == found_from(s@, needle@, i as int),
        decreases last + 1 - i,
    {
        if matches_at(&v, &p, i) {
            let before = text_between(&v, 0, i);
            let after = text_between(&v, i + p.len(), v.len());
            assert(before@ =~= s@.take(i as int));
            assert(after@ =~= s@.skip(i + needle@.len()));
            return Some((before, after));
        }
        if i == last {
            assert(found_from(s@, needle@, i + 1) is None);
            return None;
        }
        i = i + 1;
    }
    None
}

/// Where white space first stands in `s`.
pub open spec fn first_space(s: Seq<char>) -> Option<int>
    decreases s.len(),
{
    if s.len() == 0 {
        None
    } else {
        match first_space(s.drop_last()) {
            Some(i) => Some(i),
            None => if is_space(s.last()) {
                Some(s.len() - 1)
            } else {
                None
            },
        }
    }
}

/// A text cut at its first white space.
pub open spec fn cut_space(s: Seq<char>) -> Option<(Seq<char>, Seq<char>)> {
    match first_space(s) {
        Some(i) => Some((s.take(i), s.skip(i + 1))),
        None => None,
    }
}

proof fn lemma_first_space_prefix(s: Seq<char>, n: int)
    requires
        0 <= n <= s.len(),
        first_space(s.take(n)) is Some,
    ensures
        first_space(s) == first_space(s.take(n)),
    decreases s.len() - n,
{
    if n == s.len() {
        assert(s.take(n) =~= s);
    } else {
        assert(s.take(n + 1).drop_last() =~= s.take(n));
        lemma_first_space_prefix(s, n + 1);
    }
}

/// Cuts a text at its first white space.
pub fn split_space(s: &str) -> (r: Option<(String, String)>)
    ensures
        pair_text(r) == cut_space(s@),
{
    let v = chars_of(s);
    for i in 0..v.len()
        invariant
            v@ == s@,
            first_space(v@.take(i as int)) is None,
    {
        assert(v@.take(i + 1).drop_last() =~= v@.take(i as int));
        if is_whitespace(v[i]) {
            proof {
                lemma_first_space_prefix(v@, i + 1);
            }
            let before = text_between(&v, 0, i);
            let after = text_between(&v, i + 1, v.len());
            assert(before@ =~= s@.take(i as int));
            assert(after@ =~= s@.skip(i + 1));
            return Some((before, after));
        }
    }
    assert(v@.take(v@.len() as int) =~= s@);
    None
}

/// The digit that writes `d` in a base of at most sixteen.
pub open spec fn digit(d: int) -> char {
    if d < 10 {
        (48 + d) as char
    } else {
        (87 + d) as char
    }
}

/// A number written in decimal.
pub open spec fn decimal(n: nat) -> Seq<char>
    decreases n,
{
    if n < 10 {
        seq![digit(n as int)]
    } else {
        decimal(n / 10).push(digit((n % 10) as int))
    }
}

/// The digit that writes `d`.
fn digit_char(d: u32) -> (r: char)
    requires
        d < 16,
    ensures
        r == digit(d as int),
{
    if d < 10 {
        (48 + d as u8) as char
    } else {
        (87 + d as u8) as char
    }
}

/// Writes a number in decimal.
pub fn dec(n: u64) -> (r: String)
    ensures
        r@ == decimal(n as nat),
    decreases n,
{
    if n < 10 {
        let mut out = String::new();
        out.push(digit_char(n as u32));
        assert(out@ =~= decimal(n as nat));
        out
    } else {
        let mut out = dec(n / 10);
        out.push(digit_char((n % 10) as u32));
        out
    }
}

/// The number that a decimal rendering reads back as is the number written.
pub proof fn lemma_decimal_reads_back(n: nat)
    ensures
        all_digits(decimal(n)),
        decimal(n).len() > 0,
        digits_value(decimal(n)) == n,
        forall|i: int| 0 <= i < decimal(n).len() ==> is_digit(#[trigger] decimal(n)[i]),
    decreases n,
{
    let d = decimal(n);
    if n < 10 {
        assert(d.drop_last() =~= Seq::<char>::empty());
        assert(digits_value(d.drop_last()) == 0);
        assert(d.last() == digit(n as int));
    } else {
        lemma_decimal_reads_back(n / 10);
        assert(d.drop_last() =~= decimal(n / 10));
        assert(d.last() == digit((n % 10) as int));
        assert forall|i: int| 0 <= i < d.len() implies is_digit(#[trigger] d[i]) by {
            if i < d.len() - 1 {
                assert(d[i] == decimal(n / 10)[i]);
            }
        }
    }
}

/// A signed number written in decimal.
pub open spec fn signed_decimal(n: int) -> Seq<char> {
    if n < 0 {
        seq!['-'] + decimal((-n) as nat)
    } else {
        decimal(n as nat)
    }
}

/// Writes a signed number in decimal.
pub fn dec_i64(n: i64) -> (r: String)
    requires
        n > i64::MIN,
    ensures
        r@ == signed_decimal(n as int),
{
    if n < 0 {
        let mut out = String::new();
        out.push('-');
        let size: u64 = (0 - n) as u64;
        let digits = dec(size);
        out.append(digits.as_str());
        assert(out@ =~= seq!['-'] + decimal(size as nat));
        out
    } else {
        dec(n as u64)
    }
}

/// The lowest `width` base-sixteen digits of a number, most significant first.
pub open spec fn hex(n: nat, width: nat) -> Seq<char>
    decreases width,
{
    if width == 0 {
        Seq::empty()
    } else {
        hex(n / 16, (width - 1) as nat).push(digit((n % 16) as int))
    }
}

/// Writes the lowest `width` base-sixteen digits of a number.
pub fn hex_digits(n: u32, width: usize) -> (r: String)
    ensures
        r@ == hex(n as nat, width as nat),
    decreases width,
{
    if width == 0 {
        String::new()
    } else {
        let mut out = hex_digits(n / 16, width - 1);
        out.push(digit_char(n % 16));
        out
    }
}

/// `char::to_ascii_lowercase` on a character.
pub open spec fn ascii_lower(c: char) -> char {
    if 'A' <= c <= 'Z' {
        (c as u32 + 32) as char
    } else {
        c
    }
}

/// The ASCII letter in lower case, any other character as it is.
pub fn lower_ascii(c: char) -> (r: char)
    ensures
        r == ascii_lower(c),
{
    if 'A' <= c && c <= 'Z' {
        ((c as u8) + 32) as char
    } else {
        c
    }
}

/// An ASCII letter or digit.
pub open spec fn is_ascii_alnum(c: char) -> bool {
    ('0' <= c <= '9') || ('A' <= c <= 'Z') || ('a' <= c <= 'z')
}

/// Every character is an ASCII character.
pub open spec fn all_ascii(s: Seq<char>) -> bool {
    forall|i: int| 0 <= i < s.len() ==> #[trigger] s[i] <= '\u{7f}'
}

/// The text in lower case, as Unicode maps it.
pub uninterp spec fn lowercase(s: Seq<char>) -> Seq<char>;

/// `str::to_lowercase`: the lower case of a text is a function of its
/// characters, named here. Of a text in ASCII it is the text with every letter
/// in lower case.
#[verifier::external_body]
pub(crate) fn to_lowercase(s: &str) -> (r: String)
    ensures
        r@ == lowercase(s@),
        all_ascii(s@) ==> r@ == Seq::new(s@.len(), |i: int| ascii_lower(s@[i])),
{
    s.to_lowercase()
}

/// A character with the Unicode Uppercase property.
pub uninterp spec fn is_upper(c: char) -> bool;

/// `char::is_uppercase`: whether a character is in upper case is a function of
/// the character, named here. Of an ASCII character it is whether it is one of
/// the letters A to Z.
#[verifier::external_body]
pub(crate) fn is_uppercase(c: char) -> (r: bool)
    ensures
        r == is_upper(c),
        (c as u32) < 128 ==> r == ('A' <= c <= 'Z'),
{
    c.is_uppercase()
}

/// A character in upper case, as Unicode maps it.
pub uninterp spec fn uppercase(c: char) -> Seq<char>;

/// `char::to_uppercase`: the upper case of a character is a function of the
/// character, named here. Of an ASCII letter it is the capital letter, of any
/// other ASCII character the character itself.
#[verifier::external_body]
pub(crate) fn to_uppercase(c: char) -> (r: String)
    ensures
        r@ == uppercase(c),
        'a' <= c <= 'z' ==> r@ == seq![(c as u32 - 32) as char],
        (c as u32) < 128 && !('a' <= c <= 'z') ==> r@ == seq![c],
{
    c.to_uppercase().to_string()
}

/// A text between double quotes, with what cannot stand there escaped.
pub uninterp spec fn quoted(s: Seq<char>) -> Seq<char>;

/// The debug rendering of `str`: the text between double quotes, with what cannot
/// stand there escaped, is a function of the text, named here.
#[verifier::external_body]
pub(crate) fn quote(s: &str) -> (r: String)
    ensures
        r@ == quoted(s@),
{
    format!("{s:?}")
}

/// The bytes that a character takes in UTF-8.
pub open spec fn char_bytes(c: char) -> nat {
    if c <= '\u{7f}' {
        1
    } else if c <= '\u{7ff}' {
        2
    } else if c <= '\u{ffff}' {
        3
    } else {
        4
    }
}

/// The bytes that a text takes in UTF-8.
pub open spec fn byte_count(s: Seq<char>) -> nat
    decreases s.len(),
{
    if s.len() == 0 {
        0
    } else {
        byte_count(s.drop_last()) + char_bytes(s.last())
    }
}

/// The bytes that a text takes in UTF-8.
pub fn byte_len(s: &str) -> (r: u128)
    ensures
        r == byte_count(s@),
{
    let chars = chars_of(s);
    let mut n: u128 = 0;
    for i in 0..chars.len()
        invariant
            chars@ == s@,
            n == byte_count(s@.take(i as int)),
            n <= 4 * i,
    {
        assert(s@.take(i + 1).drop_last() =~= s@.take(i as int));
        let c = chars[i];
        if c <= '\u{7f}' {
            n = n + 1;
        } else if c <= '\u{7ff}' {
            n = n + 2;
        } else if c <= '\u{ffff}' {
            n = n + 3;
        } else {
            n = n + 4;
        }
    }
    assert(s@.take(s@.len() as int) =~= s@);
    n
}

/// Blanks, tabs and line ends are white space, and nothing that is printed in ASCII is.
pub proof fn law_only_blanks_are_space(c: char)
    ensures
        c == ' ' || c == '\t' || c == '\n' || c == '\r' ==> is_space(c),
        '!' <= c <= '~' ==> !is_space(c),
{
}

proof fn lemma_trimmed_start(s: Seq<char>)
    ensures
        exists|n: int|
            {
                &&& 0 <= n <= s.len()
                &&& trimmed_start(s) == #[trigger] s.skip(n)
                &&& forall|i: int| 0 <= i < n ==> is_space(#[trigger] s[i])
                &&& n < s.len() ==> !is_space(s[n])
            },
    decreases s.len(),
{
    if s.len() > 0 && is_space(s[0]) {
        let t = s.drop_first();
        lemma_trimmed_start(t);
        let n = choose|n: int|
            {
                &&& 0 <= n <= t.len()
                &&& trimmed_start(t) == #[trigger] t.skip(n)
                &&& forall|i: int| 0 <= i < n ==> is_space(#[trigger] t[i])
                &&& n < t.len() ==> !is_space(t[n])
            };
        assert(t.skip(n) =~= s.skip(n + 1));
        assert forall|i: int| 0 <= i < n + 1 implies is_space(#[trigger] s[i]) by {
            if i > 0 {
                assert(t[i - 1] == s[i]);
            }
        }
        if n + 1 < s.len() {
            assert(t[n] == s[n + 1]);
        }
    } else {
        assert(s.skip(0) =~= s);
    }
}

proof fn lemma_trimmed_end(s: Seq<char>)
    ensures
        exists|n: int|
            {
                &&& 0 <= n <= s.len()
                &&& trimmed_end(s) == #[trigger] s.take(n)
                &&& forall|i: int| n <= i < s.len() ==> is_space(#[trigger] s[i])
                &&& n > 0 ==> !is_space(s[n - 1])
            },
    decreases s.len(),
{
    if s.len() > 0 && is_space(s.last()) {
        let t = s.drop_last();
        lemma_trimmed_end(t);
        let n = choose|n: int|
            {
                &&& 0 <= n <= t.len()
                &&& trimmed_end(t) == #[trigger] t.take(n)
                &&& forall|i: int| n <= i < t.len() ==> is_space(#[trigger] t[i])
                &&& n > 0 ==> !is_space(t[n - 1])
            };
        assert(t.take(n) =~= s.take(n));
        assert forall|i: int| n <= i < s.len() implies is_space(#[trigger] s[i]) by {
            if i < t.len() {
                assert(t[i] == s[i]);
            }
        }
    } else {
        assert(s.take(s.len() as int) =~= s);
    }
}

/// Trimming takes white space off both ends, all of it, and nothing else.
pub proof fn law_trimming_takes_all_space_and_nothing_else(s: Seq<char>)
    ensures
        exists|a: int, b: int|
            {
                &&& 0 <= a <= b <= s.len()
                &&& trimmed(s) == #[trigger] s.subrange(a, b)
                &&& forall|i: int| 0 <= i < a || b <= i < s.len() ==> is_space(#[trigger] s[i])
                &&& a < b ==> !is_space(s[a]) && !is_space(s[b - 1])
            },
{
    lemma_trimmed_start(s);
    let a = choose|n: int|
        {
            &&& 0 <= n <= s.len()
            &&& trimmed_start(s) == #[trigger] s.skip(n)
            &&& forall|i: int| 0 <= i < n ==> is_space(#[trigger] s[i])
            &&& n < s.len() ==> !is_space(s[n])
        };
    let t = s.skip(a);
    lemma_trimmed_end(t);
    let n = choose|n: int|
        {
            &&& 0 <= n <= t.len()
            &&& trimmed_end(t) == #[trigger] t.take(n)
            &&& forall|i: int| n <= i < t.len() ==> is_space(#[trigger] t[i])
            &&& n > 0 ==> !is_space(t[n - 1])
        };
    let b = a + n;
    assert(t.take(n) =~= s.subrange(a, b));
    assert forall|i: int| 0 <= i < a || b <= i < s.len() implies is_space(#[trigger] s[i]) by {
        if i >= b {
            assert(t[i - a] == s[i]);
        }
    }
    if a < b {
        assert(t[n - 1] == s[b - 1]);
    }
}

/// The pieces of a text put together again with the character they were cut at are the text,
/// and none of them holds it.
pub proof fn law_pieces_join_to_the_text(s: Seq<char>, sep: char)
    ensures
        joined(pieces(s, sep), seq![sep]) == s,
        forall|i: int| 0 <= i < pieces(s, sep).len() ==> !(#[trigger] pieces(s, sep)[i]).contains(sep),
    decreases s.len(),
{
    let all = pieces(s, sep);
    if s.len() == 0 {
        assert(all[0] =~= s);
    } else {
        let t = s.drop_last();
        let before = pieces(t, sep);
        lemma_pieces_nonempty(t, sep);
        law_pieces_join_to_the_text(t, sep);
        assert(s =~= t.push(s.last()));
        if s.last() == sep {
            assert(all.drop_last() =~= before);
            assert(joined(all, seq![sep]) =~= t + seq![sep] + Seq::<char>::empty());
            assert(t + seq![sep] + Seq::<char>::empty() =~= s);
        } else {
            assert(all.drop_last() =~= before.drop_last());
            assert(all.last() == before.last().push(s.last()));
            if before.len() == 1 {
                assert(joined(all, seq![sep]) == all[0]);
                assert(all[0] =~= s);
            } else {
                let front = joined(before.drop_last(), seq![sep]) + seq![sep];
                assert(front + before.last() == t);
                assert(front + all.last() =~= s);
            }
            assert forall|i: int| 0 <= i < all.len() implies !(#[trigger] all[i]).contains(
                sep,
            ) by {
                if i < all.len() - 1 {
                    assert(all[i] == before[i]);
                } else {
                    assert(!before[before.len() - 1].contains(sep));
                    if all[i].contains(sep) {
                        let k = choose|k: int| 0 <= k < all[i].len() && all[i][k] == sep;
                        assert(before.last()[k] == sep);
                    }
                }
            }
        }
    }
}

/// White space between two texts keeps their words apart.
pub proof fn law_space_keeps_words_apart(a: Seq<char>, space: char, b: Seq<char>)
    requires
        is_space(space),
    ensures
        words(a.push(space) + b) == words(a) + words(b),
    decreases b.len(),
{
    let whole = a.push(space) + b;
    if b.len() == 0 {
        assert(whole =~= a.push(space));
        assert(whole.drop_last() =~= a);
        assert(words(a) + words(b) =~= words(a));
    } else {
        let t = b.drop_last();
        law_space_keeps_words_apart(a, space, t);
        assert(whole.drop_last() =~= a.push(space) + t);
        assert(whole.last() == b.last());
        if !is_space(b.last()) {
            if b.len() > 1 {
                assert(whole[whole.len() - 2] == b[b.len() - 2]);
                if !is_space(b[b.len() - 2]) {
                    lemma_word_begun(t);
                    assert(words(t).len() > 0);
                    assert((words(a) + words(t)).drop_last() =~= words(a) + words(t).drop_last());
                }
            } else {
                assert(whole[whole.len() - 2] == space);
                assert(words(t) =~= Seq::<Seq<char>>::empty());
            }
            assert(words(whole) =~= words(a) + words(b));
        }
    }
}

proof fn lemma_word_begun(s: Seq<char>)
    requires
        s.len() > 0,
        !is_space(s.last()),
    ensures
        words(s).len() > 0,
{
}

/// A text without white space is one word.
pub proof fn law_a_solid_text_is_one_word(w: Seq<char>)
    requires
        w.len() > 0,
        forall|i: int| 0 <= i < w.len() ==> !is_space(#[trigger] w[i]),
    ensures
        words(w) == seq![w],
    decreases w.len(),
{
    let t = w.drop_last();
    assert(!is_space(w[w.len() - 1]));
    if t.len() == 0 {
        assert(words(t) =~= Seq::<Seq<char>>::empty());
        assert(seq![w.last()] =~= w);
        assert(words(w) =~= seq![w]);
    } else {
        assert forall|i: int| 0 <= i < t.len() implies !is_space(#[trigger] t[i]) by {
            assert(t[i] == w[i]);
        }
        law_a_solid_text_is_one_word(t);
        assert(!is_space(w[w.len() - 2]));
        assert(t.push(w.last()) =~= w);
        assert(words(w) =~= seq![w]);
    }
}

pub proof fn lemma_one_line(s: Seq<char>, sep: char)
    requires
        !s.contains(sep),
    ensures
        pieces(s, sep) == seq![s],
    decreases s.len(),
{
    if s.len() == 0 {
        assert(s =~= Seq::<char>::empty());
    } else {
        let t = s.drop_last();
        assert(!t.contains(sep)) by {
            if t.contains(sep) {
                let k = choose|k: int| 0 <= k < t.len() && t[k] == sep;
                assert(s[k] == sep);
            }
        }
        assert(s[s.len() - 1] != sep);
        lemma_one_line(t, sep);
        assert(t.push(s.last()) =~= s);
        assert(pieces(s, sep) =~= seq![s]);
    }
}

/// A line goes up to its line end, a carriage return before that is no part of it, and the rest
/// of the text has the rest of the lines. What has no line end is a line where it is anything.
pub proof fn law_a_text_is_read_line_by_line(line: Seq<char>, rest: Seq<char>)
    requires
        !line.contains('\n'),
    ensures
        lines(line.push('\n') + rest) == seq![
            if line.len() > 0 && line.last() == '\r' {
                line.drop_last()
            } else {
                line
            },
        ] + lines(rest),
        line.len() > 0 ==> lines(line) == seq![line],
        lines(Seq::<char>::empty()) == Seq::<Seq<char>>::empty(),
{
    let whole = line.push('\n') + rest;
    crate::paths::lemma_pieces_joined(line, rest, '\n');
    lemma_one_line(line, '\n');
    lemma_pieces_nonempty(rest, '\n');
    let cut = pieces(rest, '\n');
    let all = pieces(whole, '\n');
    assert(all =~= seq![line] + cut);
    let first = if line.len() > 0 && line.last() == '\r' {
        line.drop_last()
    } else {
        line
    };
    assert(without_cr(line) =~= first);
    assert(all.last() == cut.last());
    assert forall|i: int| 0 <= i < cut.len() implies all[i + 1] == cut[i] by {}
    assert(lines(whole) =~= seq![first] + lines(rest));
    assert(lines(Seq::<char>::empty()) =~= Seq::<Seq<char>>::empty());
    if line.len() > 0 {
        assert(lines(line) =~= seq![line]);
    }
}

/// A text cut in two at a character is what stands before it, the character, and what stands
/// behind it; the first half holds none of it, or, cut at the last, the second does not.
pub proof fn law_a_cut_text_goes_together_again(s: Seq<char>, c: char)
    ensures
        cut_first(s, c) is Some <==> s.contains(c),
        cut_last(s, c) is Some <==> s.contains(c),
        cut_first(s, c) matches Some((a, b)) ==> s == a.push(c) + b && !a.contains(c),
        cut_last(s, c) matches Some((a, b)) ==> s == a.push(c) + b && !b.contains(c),
{
    lemma_first_index(s, c);
    lemma_last_index(s, c);
    if let Some(i) = first_index(s, c) {
        assert(s =~= s.take(i).push(c) + s.skip(i + 1));
        assert(s[i] == c);
        if s.take(i).contains(c) {
            let before = s.take(i);
            let k = choose|k: int| 0 <= k < before.len() && before[k] == c;
            assert(s[k] == c);
        }
    }
    if let Some(i) = last_index(s, c) {
        assert(s =~= s.take(i).push(c) + s.skip(i + 1));
        assert(s[i] == c);
        if s.skip(i + 1).contains(c) {
            let behind = s.skip(i + 1);
            let k = choose|k: int| 0 <= k < behind.len() && behind[k] == c;
            assert(s[i + 1 + k] == c);
        }
    }
}

proof fn lemma_found_from(s: Seq<char>, needle: Seq<char>, i: int)
    requires
        0 <= i,
    ensures
        match found_from(s, needle, i) {
            Some(k) => i <= k && stands_at(s, needle, k) && forall|j: int|
                i <= j < k ==> !#[trigger] stands_at(s, needle, j),
            None => forall|j: int| i <= j ==> !#[trigger] stands_at(s, needle, j),
        },
    decreases s.len() + 1 - i,
{
    if i + needle.len() <= s.len() && !stands_at(s, needle, i) {
        lemma_found_from(s, needle, i + 1);
    }
}

/// A text cut at another is what stands before the first of it, itself, and what stands behind;
/// it is cut wherever it holds the other at all.
pub proof fn law_a_text_is_cut_where_another_first_stands(s: Seq<char>, needle: Seq<char>)
    ensures
        cut_text(s, needle) is Some <==> exists|i: int|
            0 <= i && i + needle.len() <= s.len() && #[trigger] s.subrange(i, i + needle.len())
                == needle,
        cut_text(s, needle) matches Some((a, b)) ==> s == a + needle + b && forall|j: int|
            0 <= j < a.len() && j + needle.len() <= s.len() ==> #[trigger] s.subrange(
                j,
                j + needle.len(),
            ) != needle,
{
    lemma_found_from(s, needle, 0);
    match found_from(s, needle, 0) {
        Some(k) => {
            assert(s.subrange(k, k + needle.len()) == needle);
            assert(s =~= s.take(k) + needle + s.skip(k + needle.len())) by {
                assert forall|i: int| 0 <= i < needle.len() implies s[k + i] == needle[i] by {
                    assert(s.subrange(k, k + needle.len())[i] == needle[i]);
                }
            }
            assert forall|j: int| 0 <= j < k && j + needle.len() <= s.len() implies
                #[trigger] s.subrange(j, j + needle.len()) != needle by {
                assert(!stands_at(s, needle, j));
            }
        },
        None => {
            assert forall|i: int| 0 <= i && i + needle.len() <= s.len() implies
                #[trigger] s.subrange(i, i + needle.len()) != needle by {
                assert(!stands_at(s, needle, i));
            }
        },
    }
}

/// A number that was written is read back where it is small enough, and refused where it is
/// not; so is one with its sign.
pub proof fn law_a_written_number_reads_back(n: nat, max: int)
    ensures
        unsigned_value(decimal(n), max) == (if n <= max {
            Some(n as int)
        } else {
            None
        }),
        unsigned_value(seq!['+'] + decimal(n), max) == unsigned_value(decimal(n), max),
        n <= i32::MAX ==> i32_value(signed_decimal(n as int)) == Some(n as int),
        0 < n <= 0x8000_0000 ==> i32_value(signed_decimal(-(n as int))) == Some(-(n as int)),
{
    lemma_decimal_reads_back(n);
    let d = decimal(n);
    assert(is_digit(d[0]));
    assert((seq!['+'] + d).drop_first() =~= d);
    assert((seq!['-'] + d).drop_first() =~= d);
}

/// What is not made of digits, a sign aside, is no number.
pub proof fn law_only_digits_are_a_number(s: Seq<char>, max: int, i: int)
    requires
        0 <= i < s.len(),
        !('0' <= s[i] <= '9'),
        i > 0 || s.len() == 1 || s[0] != '+',
    ensures
        unsigned_value(s, max) is None,
{
    if s[0] == '+' {
        let body = s.drop_first();
        if body.len() > 0 {
            assert(body[i - 1] == s[i]);
            assert(!is_digit(body[i - 1]));
        }
    } else {
        assert(!is_digit(s[i]));
    }
}

/// Replacing a character leaves all others where they are.
pub proof fn law_replacing_goes_character_by_character(
    a: Seq<char>,
    c: char,
    from: char,
    to: Seq<char>,
)
    ensures
        replaced(Seq::<char>::empty(), from, to) == Seq::<char>::empty(),
        replaced(a.push(c), from, to) == replaced(a, from, to) + (if c == from {
            to
        } else {
            seq![c]
        }),
{
    assert(a.push(c).drop_last() =~= a);
    assert(replaced(a, from, to).push(c) =~= replaced(a, from, to) + seq![c]);
}

/// White space in front is dropped down to the first character that is none.
pub proof fn law_space_in_front_is_dropped(space: Seq<char>, s: Seq<char>)
    requires
        forall|i: int| 0 <= i < space.len() ==> is_space(#[trigger] space[i]),
        s.len() > 0,
        !is_space(s[0]),
    ensures
        trimmed_start(space + s) == s,
    decreases space.len(),
{
    let whole = space + s;
    if space.len() == 0 {
        assert(whole =~= s);
    } else {
        let rest = space.drop_first();
        assert forall|i: int| 0 <= i < rest.len() implies is_space(#[trigger] rest[i]) by {
            assert(rest[i] == space[i + 1]);
        }
        law_space_in_front_is_dropped(rest, s);
        assert(whole[0] == space[0]);
        assert(whole.drop_first() =~= rest + s);
    }
}

/// White space behind is dropped down to the last character that is none.
pub proof fn law_space_behind_is_dropped(s: Seq<char>, space: Seq<char>)
    requires
        forall|i: int| 0 <= i < space.len() ==> is_space(#[trigger] space[i]),
        s.len() > 0,
        !is_space(s.last()),
    ensures
        trimmed_end(s + space) == s,
    decreases space.len(),
{
    let whole = s + space;
    if space.len() == 0 {
        assert(whole =~= s);
    } else {
        let rest = space.drop_last();
        assert forall|i: int| 0 <= i < rest.len() implies is_space(#[trigger] rest[i]) by {
            assert(rest[i] == space[i]);
        }
        law_space_behind_is_dropped(s, rest);
        assert(whole.last() == space.last());
        assert(whole.drop_last() =~= s + rest);
    }
}

/// A written number is one word, and trimming leaves it as it is.
pub proof fn law_a_written_number_is_a_word(n: nat)
    ensures
        words(decimal(n)) == seq![decimal(n)],
        trimmed(decimal(n)) == decimal(n),
        trimmed_start(decimal(n)) == decimal(n),
{
    lemma_decimal_reads_back(n);
    let d = decimal(n);
    assert forall|i: int| 0 <= i < d.len() implies !is_space(#[trigger] d[i]) by {
        assert(is_digit(d[i]));
    }
    law_a_solid_text_is_one_word(d);
    assert(!is_space(d[0]));
    assert(!is_space(d.last()));
}

proof fn lemma_first_space(s: Seq<char>)
    ensures
        match first_space(s) {
            Some(i) => 0 <= i < s.len() && is_space(s[i]) && forall|j: int|
                0 <= j < i ==> !is_space(#[trigger] s[j]),
            None => forall|j: int| 0 <= j < s.len() ==> !is_space(#[trigger] s[j]),
        },
    decreases s.len(),
{
    if s.len() > 0 {
        let t = s.drop_last();
        lemma_first_space(t);
        assert forall|j: int| 0 <= j < t.len() implies t[j] == #[trigger] s[j] by {}
        if first_space(t) is Some {
            let i = first_space(t)->0;
            assert(s[i] == t[i]);
        } else {
            assert forall|j: int| 0 <= j < t.len() implies !is_space(#[trigger] s[j]) by {
                assert(!is_space(t[j]));
            }
            assert(s[s.len() - 1] == s.last());
        }
    }
}

/// A text is cut in two at its first white space.
pub proof fn law_a_text_is_cut_at_its_first_space(a: Seq<char>, space: char, b: Seq<char>)
    requires
        forall|i: int| 0 <= i < a.len() ==> !is_space(#[trigger] a[i]),
        is_space(space),
    ensures
        cut_space(a.push(space) + b) == Some((a, b)),
        cut_space(a) is None,
{
    let s = a.push(space) + b;
    lemma_first_space(s);
    lemma_first_space(a);
    let n = a.len() as int;
    assert(s[n] == space);
    let i = first_space(s)->0;
    if i < n {
        assert(s[i] == a[i]);
    }
    assert(i == n);
    assert(s.take(n) =~= a);
    assert(s.skip(n + 1) =~= b);
}

/// A number is written in tens: its last digit stands behind the rest of it, and a number below
/// ten is its digit.
pub proof fn law_a_number_is_written_in_tens(n: nat, d: nat)
    requires
        d < 10,
    ensures
        decimal(d) == seq![(('0' as int) + d) as char],
        n > 0 ==> decimal(10 * n + d) == decimal(n).push((('0' as int) + d) as char),
{
    if n > 0 {
        let whole = 10 * n + d;
        assert(whole / 10 == n);
        assert(whole % 10 == d);
    }
}

/// One text stands within another exactly where the other is something, then it, then something.
pub proof fn law_a_text_stands_within_another(s: Seq<char>, needle: Seq<char>)
    ensures
        occurs(s, needle) <==> exists|a: Seq<char>, b: Seq<char>| s == #[trigger] (a + needle + b),
{
    if occurs(s, needle) {
        let i = choose|i: int| stands_at(s, needle, i);
        let a = s.take(i);
        let b = s.skip(i + needle.len());
        assert(s =~= a + needle + b) by {
            assert forall|j: int| 0 <= j < needle.len() implies s[i + j] == needle[j] by {
                assert(s.subrange(i, i + needle.len())[j] == needle[j]);
            }
        }
    }
    if exists|a: Seq<char>, b: Seq<char>| s == #[trigger] (a + needle + b) {
        let (a, b) = choose|a: Seq<char>, b: Seq<char>| s == #[trigger] (a + needle + b);
        let i = a.len() as int;
        assert(s.subrange(i, i + needle.len()) =~= needle);
        assert(stands_at(s, needle, i));
    }
}

/// What stands behind a prefix or ahead of a suffix is the rest of the text, and a text that
/// does not begin or end like that has none.
pub proof fn law_a_prefix_and_a_suffix_come_off(s: Seq<char>, end: Seq<char>)
    ensures
        behind(end + s, end) == Some(s),
        ahead_of(s + end, end) == Some(s),
        behind(s, end) matches Some(rest) ==> s == end + rest,
        ahead_of(s, end) matches Some(rest) ==> s == rest + end,
{
    let n = end.len() as int;
    let a = end + s;
    let b = s + end;
    assert(a.subrange(0, n) =~= end);
    assert(a.skip(n) =~= s);
    assert(b.subrange(b.len() - n, b.len() as int) =~= end);
    assert(b.take(b.len() - n) =~= s);
    if end.is_prefix_of(s) {
        assert(s.subrange(0, n) == end);
        assert(s =~= s.subrange(0, n) + s.skip(n));
    }
    if end.is_suffix_of(s) {
        assert(s.subrange(s.len() - n, s.len() as int) == end);
        assert(s =~= s.take(s.len() - n) + s.subrange(s.len() - n, s.len() as int));
    }
}

/// Texts are joined in order, with the separator between any two and nowhere else.
pub proof fn law_texts_are_joined_with_a_separator_between(
    parts: Seq<Seq<char>>,
    last: Seq<char>,
    sep: Seq<char>,
)
    ensures
        joined(Seq::<Seq<char>>::empty(), sep) == Seq::<char>::empty(),
        joined(seq![last], sep) == last,
        parts.len() > 0 ==> joined(parts.push(last), sep) == joined(parts, sep) + sep + last,
{
    assert(parts.push(last).drop_last() =~= parts);
}

} // verus!

//! Paths as text: the components of a path and the questions asked of them.
use vstd::prelude::*;
use crate::order;
use crate::text;

verus! {

/// Whether a path begins at the root.
pub open spec fn is_absolute(p: Seq<char>) -> bool {
    p.len() > 0 && p[0] == '/'
}

/// The pieces between slashes that name something. An empty piece names
/// nothing, nor does a single dot, except the dot a relative path begins with.
pub open spec fn named_pieces(cut: Seq<Seq<char>>, absolute: bool) -> Seq<Seq<char>>
    decreases cut.len(),
{
    if cut.len() == 0 {
        Seq::empty()
    } else {
        let before = named_pieces(cut.drop_last(), absolute);
        let last = cut.last();
        if last.len() == 0 || (last == seq!['.'] && (absolute || cut.len() > 1)) {
            before
        } else {
            before.push(last)
        }
    }
}

/// The components of a path, the root of an absolute one being a slash.
pub open spec fn components(p: Seq<char>) -> Seq<Seq<char>> {
    let named = named_pieces(text::pieces(p, '/'), is_absolute(p));
    if is_absolute(p) {
        seq![seq!['/']] + named
    } else {
        named
    }
}

/// Whether two paths have the same components.
pub open spec fn same_path(a: Seq<char>, b: Seq<char>) -> bool {
    components(a) == components(b)
}

/// Whether `p` lies at or under `base`.
pub open spec fn is_under(p: Seq<char>, base: Seq<char>) -> bool {
    components(base).is_prefix_of(components(p))
}

/// Whether a component names an entry, as opposed to the root or a dot.
pub open spec fn is_name(c: Seq<char>) -> bool {
    c != seq!['/'] && c != seq!['.'] && c != seq!['.', '.']
}

/// The name a path ends in.
pub open spec fn name_of(p: Seq<char>) -> Option<Seq<char>> {
    let c = components(p);
    if c.len() > 0 && is_name(c.last()) {
        Some(c.last())
    } else {
        None
    }
}

/// A file name cut at its last dot, unless that dot begins the name.
pub open spec fn stem_and_extension(name: Seq<char>) -> (Seq<char>, Option<Seq<char>>) {
    match text::last_index(name, '.') {
        Some(i) if i > 0 => (name.take(i), Some(name.skip(i + 1))),
        _ => (name, None),
    }
}

/// `rel` below `base`: `rel` itself where it begins at the root.
pub open spec fn below(base: Seq<char>, rel: Seq<char>) -> Seq<char> {
    if is_absolute(rel) {
        rel
    } else if base.len() == 0 || base.last() == '/' {
        base + rel
    } else {
        base.push('/') + rel
    }
}

/// The components of a path.
pub fn split_path(p: &str) -> (r: Vec<String>)
    ensures
        text::texts(r@) == components(p@),
{
    broadcast use {text::lemma_texts_push, text::lemma_pieces_nonempty};

    let cut = text::split_on(p, '/');
    let chars = text::chars_of(p);
    let absolute: bool = chars.len() > 0 && chars[0] == '/';
    let mut out: Vec<String> = Vec::new();
    let ghost all = text::pieces(p@, '/');
    if absolute {
        let mut root = String::new();
        root.push('/');
        assert(root@ =~= seq!['/']);
        out.push(root);
        assert(text::texts(out@) =~= seq![seq!['/']]);
    }
    let ghost head = text::texts(out@);
    assert(!absolute ==> head =~= Seq::<Seq<char>>::empty());
    assert(head + named_pieces(all.take(0), absolute) =~= head);
    for i in 0..cut.len()
        invariant
            text::texts(cut@) == all,
            text::texts(out@) == head + named_pieces(all.take(i as int), absolute),
    {
        broadcast use text::lemma_texts_push;

        assert(all.take(i + 1).drop_last() =~= all.take(i as int));
        let piece = &cut[i];
        assert(piece@ == all[i as int]);
        let is_dot: bool = is_single_dot(piece);
        let skip: bool = piece.as_str().is_empty() || (is_dot && (absolute || i > 0));
        if !skip {
            out.push(piece.clone());
            assert(text::texts(out@) =~= head + named_pieces(all.take(i + 1), absolute));
        }
    }
    assert(all.take(all.len() as int) =~= all);
    out
}

fn is_single_dot(s: &str) -> (r: bool)
    ensures
        r == (s@ == seq!['.']),
{
    let v = text::chars_of(s);
    let r: bool = v.len() == 1 && v[0] == '.';
    proof {
        if r {
            assert(s@ =~= seq!['.']);
        }
    }
    r
}

/// Whether the first list of strings begins the second.
fn is_prefix(a: &Vec<String>, b: &Vec<String>) -> (r: bool)
    ensures
        r == text::texts(a@).is_prefix_of(text::texts(b@)),
{
    let ghost x = text::texts(a@);
    let ghost y = text::texts(b@);
    if a.len() > b.len() {
        return false;
    }
    for i in 0..a.len()
        invariant
            a@.len() <= b@.len(),
            x == text::texts(a@),
            y == text::texts(b@),
            forall|j: int| 0 <= j < i ==> x[j] == y[j],
    {
        if a[i] != b[i] {
            assert(y.subrange(0, x.len() as int)[i as int] != x[i as int]);
            return false;
        }
    }
    assert(y.subrange(0, x.len() as int) =~= x);
    true
}

/// Whether two paths have the same components.
pub fn same(a: &str, b: &str) -> (r: bool)
    ensures
        r == same_path(a@, b@),
{
    let x = split_path(a);
    let y = split_path(b);
    let r: bool = x.len() == y.len() && is_prefix(&x, &y);
    proof {
        if r {
            assert(components(b@).subrange(0, components(a@).len() as int) =~= components(b@));
        } else if components(a@) == components(b@) {
            assert(components(b@).subrange(0, components(a@).len() as int) =~= components(b@));
        }
    }
    r
}

/// Whether `p` lies at or under `base`.
pub fn starts_with(p: &str, base: &str) -> (r: bool)
    ensures
        r == is_under(p@, base@),
{
    let x = split_path(base);
    let y = split_path(p);
    is_prefix(&x, &y)
}

/// The name a path ends in.
pub fn file_name(p: &str) -> (r: Option<String>)
    ensures
        text::text_opt(r) == name_of(p@),
{
    let c = split_path(p);
    assert(c@.len() == components(p@).len());
    if c.len() == 0 {
        return None;
    }
    let last = c[c.len() - 1].clone();
    assert(last@ == components(p@).last());
    proof {
        reveal_strlit("/");
        reveal_strlit(".");
        reveal_strlit("..");
        assert("/"@ =~= seq!['/']);
        assert("."@ =~= seq!['.']);
        assert(".."@ =~= seq!['.', '.']);
    }
    if text::same(&last, "/") || text::same(&last, ".") || text::same(&last, "..") {
        None
    } else {
        Some(last)
    }
}

/// A file name without its extension.
pub fn file_stem(name: &str) -> (r: String)
    ensures
        r@ == stem_and_extension(name@).0,
{
    proof {
        text::lemma_last_index(name@, '.');
    }
    match text::rsplit_once(name, '.') {
        Some((before, _)) => {
            if before.as_str().is_empty() {
                name.to_owned()
            } else {
                before
            }
        },
        None => name.to_owned(),
    }
}

/// The extension of a file name.
pub fn extension(name: &str) -> (r: Option<String>)
    ensures
        text::text_opt(r) == stem_and_extension(name@).1,
{
    proof {
        text::lemma_last_index(name@, '.');
    }
    match text::rsplit_once(name, '.') {
        Some((before, after)) => {
            if before.as_str().is_empty() {
                None
            } else {
                Some(after)
            }
        },
        None => None,
    }
}

/// The path `rel` below `base`.
pub fn join(base: &str, rel: &str) -> (r: String)
    ensures
        r@ == below(base@, rel@),
{
    let b = text::chars_of(base);
    let v = text::chars_of(rel);
    if v.len() > 0 && v[0] == '/' {
        return rel.to_owned();
    }
    let mut out: String = base.to_owned();
    if b.len() > 0 && b[b.len() - 1] != '/' {
        out.push('/');
    }
    out.append(rel);
    out
}

/// A list of paths to look others up in.
pub struct PathList {
    parts: Vec<Vec<String>>,
}

impl PathList {
    /// The components of each path of the list.
    pub closed spec fn view(&self) -> Seq<Seq<Seq<char>>> {
        Seq::new(self.parts@.len(), |i: int| text::texts(self.parts@[i]@))
    }

    /// The list of the given paths.
    pub fn new(paths: &Vec<String>) -> (r: Self)
        ensures
            r@ == all_components(text::texts(paths@)),
    {
        let mut parts: Vec<Vec<String>> = Vec::new();
        for i in 0..paths.len()
            invariant
                parts@.len() == i,
                forall|j: int|
                    0 <= j < i ==> text::texts((#[trigger] parts@[j])@) == components(paths@[j]@),
        {
            parts.push(split_path(&paths[i]));
        }
        let r = PathList { parts };
        assert(r@ =~= all_components(text::texts(paths@)));
        r
    }

    /// Where the path with these components last stands in the list.
    pub fn find(&self, c: &Vec<String>) -> (r: Option<usize>)
        ensures
            match r {
                Some(i) => last_listed(self@, text::texts(c@)) == Some(i as int),
                None => last_listed(self@, text::texts(c@)) is None,
            },
    {
        let mut i: usize = self.parts.len();
        assert(self@.take(i as int) =~= self@);
        while i > 0
            invariant
                i <= self.parts@.len(),
                self@.len() == self.parts@.len(),
                last_listed(self@, text::texts(c@)) == last_listed(
                    self@.take(i as int),
                    text::texts(c@),
                ),
            decreases i,
        {
            assert(self@.take(i as int).drop_last() =~= self@.take(i - 1));
            let part = &self.parts[i - 1];
            assert(self@[i - 1] == text::texts(part@));
            let ghost x = text::texts(part@);
            let ghost y = text::texts(c@);
            let equal: bool = part.len() == c.len() && is_prefix(part, c);
            assert(x.len() == y.len() ==> y.subrange(0, x.len() as int) =~= y);
            assert(equal == (x == y));
            if equal {
                return Some(i - 1);
            }
            i = i - 1;
        }
        None
    }

    /// Whether the path with these components stands in the list.
    pub fn has(&self, c: &Vec<String>) -> (r: bool)
        ensures
            r == self@.contains(text::texts(c@)),
    {
        proof {
            lemma_last_listed(self@, text::texts(c@));
        }
        self.find(c).is_some()
    }
}

/// The components of each path.
pub open spec fn all_components(paths: Seq<Seq<char>>) -> Seq<Seq<Seq<char>>> {
    Seq::new(paths.len(), |i: int| components(paths[i]))
}

/// Where `c` last stands in a list.
pub open spec fn last_listed(list: Seq<Seq<Seq<char>>>, c: Seq<Seq<char>>) -> Option<int>
    decreases list.len(),
{
    if list.len() == 0 {
        None
    } else if list.last() == c {
        Some(list.len() - 1)
    } else {
        last_listed(list.drop_last(), c)
    }
}

/// What stands last in a list stands in it, and what stands in it stands last
/// somewhere.
pub proof fn lemma_last_listed(list: Seq<Seq<Seq<char>>>, c: Seq<Seq<char>>)
    ensures
        last_listed(list, c) is Some <==> list.contains(c),
        last_listed(list, c) matches Some(i) ==> 0 <= i < list.len() && list[i] == c && forall|
            j: int,
        |
            i < j < list.len() ==> list[j] != c,
    decreases list.len(),
{
    if list.len() > 0 && list.last() != c {
        lemma_last_listed(list.drop_last(), c);
        assert forall|j: int| 0 <= j < list.len() - 1 implies list[j] == list.drop_last()[j] by {}
        if list.contains(c) {
            let k = choose|k: int| 0 <= k < list.len() && list[k] == c;
            assert(list.drop_last()[k] == c);
        }
        if list.drop_last().contains(c) {
            let k = choose|k: int| 0 <= k < list.drop_last().len() && list.drop_last()[k] == c;
            assert(list[k] == c);
        }
    } else if list.len() > 0 {
        assert(list[list.len() - 1] == c);
    }
}

/// The root stands before a dot, a dot before two, and all of them before a name.
pub open spec fn component_rank(c: Seq<char>) -> int {
    if c == seq!['/'] {
        0
    } else if c == seq!['.'] {
        1
    } else if c == seq!['.', '.'] {
        2
    } else {
        3
    }
}

/// `a` stands before `b` component by component, or is equal to it.
pub open spec fn components_le(a: Seq<Seq<char>>, b: Seq<Seq<char>>) -> bool
    decreases a.len(),
{
    if a.len() == 0 {
        true
    } else if b.len() == 0 {
        false
    } else if component_rank(a[0]) != component_rank(b[0]) {
        component_rank(a[0]) < component_rank(b[0])
    } else if a[0] != b[0] {
        order::text_le(a[0], b[0])
    } else {
        components_le(a.drop_first(), b.drop_first())
    }
}

/// The order of paths.
pub open spec fn path_le(a: Seq<char>, b: Seq<char>) -> bool {
    components_le(components(a), components(b))
}

/// The order of paths is total.
pub proof fn lemma_components_le_total(a: Seq<Seq<char>>, b: Seq<Seq<char>>)
    ensures
        components_le(a, b) || components_le(b, a),
    decreases a.len(),
{
    if a.len() > 0 && b.len() > 0 {
        order::lemma_text_le_total(a[0], b[0]);
        if a[0] == b[0] {
            lemma_components_le_total(a.drop_first(), b.drop_first());
        }
    }
}

/// The order of paths is transitive.
pub proof fn lemma_components_le_transitive(
    a: Seq<Seq<char>>,
    b: Seq<Seq<char>>,
    c: Seq<Seq<char>>,
)
    requires
        components_le(a, b),
        components_le(b, c),
    ensures
        components_le(a, c),
    decreases a.len(),
{
    if a.len() > 0 && b.len() > 0 && c.len() > 0 {
        if a[0] == b[0] && b[0] == c[0] {
            lemma_components_le_transitive(a.drop_first(), b.drop_first(), c.drop_first());
        } else if component_rank(a[0]) == component_rank(b[0]) && component_rank(b[0])
            == component_rank(c[0]) {
            order::lemma_text_le_total(a[0], b[0]);
            order::lemma_text_le_total(b[0], c[0]);
            if a[0] != b[0] && b[0] != c[0] {
                order::lemma_text_le_transitive(a[0], b[0], c[0]);
                if a[0] == c[0] {
                    order::lemma_text_le_total(a[0], b[0]);
                }
            }
        }
    }
}

fn rank_of(c: &str) -> (r: u8)
    ensures
        r == component_rank(c@),
{
    proof {
        reveal_strlit("/");
        reveal_strlit(".");
        reveal_strlit("..");
        assert("/"@ =~= seq!['/']);
        assert("."@ =~= seq!['.']);
        assert(".."@ =~= seq!['.', '.']);
    }
    if text::same(c, "/") {
        0
    } else if text::same(c, ".") {
        1
    } else if text::same(c, "..") {
        2
    } else {
        3
    }
}

/// Whether `a` stands before `b` or is equal to it.
pub fn path_leq(a: &str, b: &str) -> (r: bool)
    ensures
        r == path_le(a@, b@),
{
    let x = split_path(a);
    let y = split_path(b);
    let ghost p = text::texts(x@);
    let ghost q = text::texts(y@);
    let mut i: usize = 0;
    assert(p.skip(0) =~= p);
    assert(q.skip(0) =~= q);
    while i < x.len()
        invariant
            i <= x@.len(),
            i <= y@.len(),
            p == text::texts(x@),
            q == text::texts(y@),
            path_le(a@, b@) == components_le(p.skip(i as int), q.skip(i as int)),
        decreases x@.len() - i,
    {
        assert(p.skip(i as int).drop_first() =~= p.skip(i + 1));
        if i >= y.len() {
            return false;
        }
        assert(q.skip(i as int).drop_first() =~= q.skip(i + 1));
        assert(p.skip(i as int)[0] == x@[i as int]@);
        assert(q.skip(i as int)[0] == y@[i as int]@);
        let rx = rank_of(&x[i]);
        let ry = rank_of(&y[i]);
        if rx != ry {
            return rx < ry;
        }
        if x[i] != y[i] {
            return order::text_leq(&x[i], &y[i]);
        }
        i = i + 1;
    }
    true
}

/// A path lies at or under itself.
pub proof fn lemma_is_under_itself(p: Seq<char>)
    ensures
        is_under(p, p),
{
    assert(components(p).subrange(0, components(p).len() as int) =~= components(p));
}

proof fn lemma_named_prefix(cut: Seq<Seq<char>>, absolute: bool, n: int)
    requires
        0 <= n <= cut.len(),
    ensures
        named_pieces(cut.take(n), absolute).is_prefix_of(named_pieces(cut, absolute)),
    decreases cut.len() - n,
{
    let a = named_pieces(cut.take(n), absolute);
    if n == cut.len() {
        assert(cut.take(n) =~= cut);
        assert(a.subrange(0, a.len() as int) =~= a);
    } else {
        lemma_named_prefix(cut, absolute, n + 1);
        assert(cut.take(n + 1).drop_last() =~= cut.take(n));
        let b = named_pieces(cut.take(n + 1), absolute);
        let c = named_pieces(cut, absolute);
        assert(b.len() <= c.len());
        assert(b == a || b == a.push(cut[n]));
        assert(c.subrange(0, b.len() as int) == b);
        assert(a =~= c.subrange(0, a.len() as int)) by {
            assert forall|i: int| 0 <= i < a.len() implies a[i] == c[i] by {
                assert(b[i] == a[i]);
                assert(c.subrange(0, b.len() as int)[i] == c[i]);
            }
        }
    }
}

/// The pieces on both sides of a separator are the pieces of the whole.
pub proof fn lemma_pieces_joined(a: Seq<char>, b: Seq<char>, sep: char)
    ensures
        text::pieces(a.push(sep) + b, sep) == text::pieces(a, sep) + text::pieces(b, sep),
    decreases b.len(),
{
    broadcast use text::lemma_pieces_nonempty;

    let whole = a.push(sep) + b;
    if b.len() == 0 {
        assert(whole =~= a.push(sep));
        assert(whole.drop_last() =~= a);
        assert(text::pieces(whole, sep) =~= text::pieces(a, sep) + text::pieces(b, sep));
    } else {
        lemma_pieces_joined(a, b.drop_last(), sep);
        assert(whole.drop_last() =~= a.push(sep) + b.drop_last());
        assert(whole.last() == b.last());
        assert(text::pieces(whole, sep) =~= text::pieces(a, sep) + text::pieces(b, sep));
    }
}

/// What is joined to a path with a slash lies under it.
pub proof fn lemma_joined_is_under(a: Seq<char>, b: Seq<char>)
    requires
        a.len() > 0,
    ensures
        is_under(a.push('/') + b, a),
{
    let whole = a.push('/') + b;
    lemma_pieces_joined(a, b, '/');
    let cut = text::pieces(whole, '/');
    let n = text::pieces(a, '/').len() as int;
    assert(cut.take(n) =~= text::pieces(a, '/'));
    assert(whole[0] == a[0]);
    lemma_named_prefix(cut, is_absolute(a), n);
    let x = named_pieces(text::pieces(a, '/'), is_absolute(a));
    let y = named_pieces(cut, is_absolute(a));
    assert(y.subrange(0, x.len() as int) == x);
    if is_absolute(a) {
        assert((seq![seq!['/']] + y).subrange(0, (x.len() + 1) as int) =~= seq![seq!['/']] + x) by {
            assert forall|i: int| 0 <= i < x.len() + 1 implies (seq![seq!['/']] + y)[i] == (seq![
                seq!['/'],
            ] + x)[i] by {
                if i > 0 {
                    assert(y.subrange(0, x.len() as int)[i - 1] == y[i - 1]);
                }
            }
        }
    }
}

/// Going deeper along a relative path leads under where it led before.
pub proof fn lemma_deeper_is_under(base: Seq<char>, rel: Seq<char>, more: Seq<char>)
    requires
        rel.len() > 0,
        rel[0] != '/',
    ensures
        is_under(below(base, rel.push('/') + more), below(base, rel)),
{
    let short = below(base, rel);
    assert((rel.push('/') + more)[0] == rel[0]);
    assert(below(base, rel.push('/') + more) =~= short.push('/') + more);
    lemma_joined_is_under(short, more);
}

/// A relative path below a base that is no bare slash lies under the base.
pub proof fn law_a_joined_path_lies_under_its_base(base: Seq<char>, rel: Seq<char>)
    requires
        base.len() > 0,
        base.last() != '/',
        !is_absolute(rel),
    ensures
        is_under(below(base, rel), base),
{
    lemma_joined_is_under(base, rel);
}

/// A path joined to an absolute base begins at the root.
pub proof fn lemma_below_absolute(base: Seq<char>, rel: Seq<char>)
    requires
        is_absolute(base),
    ensures
        is_absolute(below(base, rel)),
{
}

proof fn lemma_one_piece(w: Seq<char>)
    requires
        !w.contains('/'),
    ensures
        text::pieces(w, '/') == seq![w],
    decreases w.len(),
{
    if w.len() == 0 {
        assert(w =~= Seq::<char>::empty());
    } else {
        let t = w.drop_last();
        assert(!t.contains('/')) by {
            if t.contains('/') {
                let i = choose|i: int| 0 <= i < t.len() && t[i] == '/';
                assert(w[i] == '/');
            }
        }
        lemma_one_piece(t);
        assert(w.last() == w[w.len() - 1]);
        assert(t.push(w.last()) =~= w);
        assert(text::pieces(t, '/').last() == t);
        assert(text::pieces(w, '/') =~= seq![w]);
    }
}

/// A path ends in what stands behind its last slash.
pub proof fn lemma_last_component(front: Seq<char>, w: Seq<char>)
    requires
        w.len() > 0,
        !w.contains('/'),
        w != seq!['.'],
    ensures
        components(front.push('/') + w).len() > 0,
        components(front.push('/') + w).last() == w,
        components(w).len() > 0,
        components(w).last() == w,
{
    lemma_one_piece(w);
    lemma_pieces_joined(front, w, '/');
    let cut = text::pieces(front.push('/') + w, '/');
    assert(cut.last() == w);
    assert(cut.len() > 0);
    assert(seq![w].last() == w);
    assert(text::pieces(w, '/').last() == w);
}

/// A text is told by the pieces it falls into.
pub proof fn lemma_pieces_tell(a: Seq<char>, b: Seq<char>, sep: char)
    requires
        text::pieces(a, sep) == text::pieces(b, sep),
    ensures
        a == b,
    decreases a.len() + b.len(),
{
    broadcast use text::lemma_pieces_nonempty;

    if a.len() == 0 && b.len() == 0 {
        assert(a =~= b);
    } else if a.len() == 0 {
        lemma_not_blank(b, sep);
    } else if b.len() == 0 {
        lemma_not_blank(a, sep);
    } else {
        let x = text::pieces(a.drop_last(), sep);
        let y = text::pieces(b.drop_last(), sep);
        let whole = text::pieces(a, sep);
        if a.last() == sep && b.last() == sep {
            assert(whole.drop_last() =~= x && whole.drop_last() =~= y);
        } else if a.last() == sep {
            assert(whole.last().len() == 0);
            assert(whole.last() == y.last().push(b.last()));
        } else if b.last() == sep {
            assert(whole.last().len() == 0);
            assert(whole.last() == x.last().push(a.last()));
        } else {
            assert(whole.last() == x.last().push(a.last()));
            assert(whole.last() == y.last().push(b.last()));
            assert(x.last() =~= whole.last().drop_last());
            assert(y.last() =~= whole.last().drop_last());
            assert(whole.last().last() == a.last() && whole.last().last() == b.last());
            assert(x.drop_last() =~= whole.drop_last() && y.drop_last() =~= whole.drop_last());
            assert(x =~= x.drop_last().push(x.last()) && y =~= y.drop_last().push(y.last()));
        }
        lemma_pieces_tell(a.drop_last(), b.drop_last(), sep);
        assert(a =~= a.drop_last().push(a.last()) && b =~= b.drop_last().push(b.last()));
    }
}

/// A text that is not empty does not fall into one empty piece.
proof fn lemma_not_blank(s: Seq<char>, sep: char)
    requires
        s.len() > 0,
    ensures
        text::pieces(s, sep) != seq![Seq::<char>::empty()],
{
    broadcast use text::lemma_pieces_nonempty;

    let before = text::pieces(s.drop_last(), sep);
    if s.last() == sep {
        assert(text::pieces(s, sep).len() == before.len() + 1);
    } else {
        assert(text::pieces(s, sep).last().len() > 0);
        assert(seq![Seq::<char>::empty()].last().len() == 0);
    }
}

/// A component begins here.
pub open spec fn begins_at(rel: Seq<char>, i: int) -> bool {
    i == 0 || rel[i - 1] == '/'
}

/// A relative path of names only: no two slashes meet, none stands at either end, and no
/// component is a dot.
pub open spec fn is_plain(rel: Seq<char>) -> bool {
    &&& rel.len() > 0
    &&& forall|i: int|
        #![trigger rel[i]]
        0 <= i < rel.len() ==> {
            &&& !(rel[i] == '/' && (begins_at(rel, i) || i + 1 == rel.len()))
            &&& !(rel[i] == '.' && begins_at(rel, i) && (i + 1 == rel.len() || rel[i + 1] == '/'))
        }
}

/// A piece that names something wherever it stands.
spec fn is_named(piece: Seq<char>) -> bool {
    piece.len() > 0 && piece != seq!['.']
}

proof fn lemma_plain_prefix(rel: Seq<char>, n: int) -> (start: int)
    requires
        is_plain(rel),
        0 <= n <= rel.len(),
    ensures
        0 <= start <= n,
        begins_at(rel, start),
        text::pieces(rel.take(n), '/').len() > 0,
        text::pieces(rel.take(n), '/').last() == rel.subrange(start, n),
        forall|j: int|
            0 <= j < text::pieces(rel.take(n), '/').len() - 1 ==> is_named(
                #[trigger] text::pieces(rel.take(n), '/')[j],
            ),
    decreases n,
{
    let t = rel.take(n);
    if n == 0 {
        assert(t =~= Seq::<char>::empty());
        assert(text::pieces(t, '/').last() =~= rel.subrange(0, 0));
        0
    } else {
        let start = lemma_plain_prefix(rel, n - 1);
        assert(t.drop_last() =~= rel.take(n - 1));
        assert(t.last() == rel[n - 1]);
        let before = text::pieces(rel.take(n - 1), '/');
        let now = text::pieces(t, '/');
        if rel[n - 1] == '/' {
            let piece = rel.subrange(start, n - 1);
            assert(is_named(piece)) by {
                if start == n - 1 {
                    assert(begins_at(rel, n - 1));
                }
                if piece == seq!['.'] {
                    assert(piece.len() == 1);
                    assert(piece[0] == rel[start]);
                    assert(rel[start] == '.' && rel[start + 1] == '/');
                }
            }
            assert(now.last() =~= rel.subrange(n, n));
            assert forall|j: int| 0 <= j < now.len() - 1 implies is_named(#[trigger] now[j]) by {
                if j < before.len() - 1 {
                    assert(now[j] == before[j]);
                } else {
                    assert(now[j] == before.last());
                }
            }
            n
        } else {
            assert(now.last() =~= rel.subrange(start, n));
            assert forall|j: int| 0 <= j < now.len() - 1 implies is_named(#[trigger] now[j]) by {
                assert(now[j] == before[j]);
            }
            start
        }
    }
}

/// Every component of a plain path names something.
proof fn lemma_plain_pieces(rel: Seq<char>)
    requires
        is_plain(rel),
    ensures
        forall|j: int|
            0 <= j < text::pieces(rel, '/').len() ==> is_named(
                #[trigger] text::pieces(rel, '/')[j],
            ),
        text::pieces(rel, '/').len() > 0,
        rel.len() >= text::pieces(rel, '/').last().len(),
        text::pieces(rel, '/').last() == rel.skip(
            rel.len() - text::pieces(rel, '/').last().len(),
        ),
{
    let n = rel.len() as int;
    let start = lemma_plain_prefix(rel, n);
    assert(rel.take(n) =~= rel);
    let all = text::pieces(rel, '/');
    let piece = rel.subrange(start, n);
    assert(is_named(piece)) by {
        if start == n {
            assert(rel[n - 1] == '/');
        }
        if piece == seq!['.'] {
            assert(piece[0] == rel[start]);
            assert(rel[start] == '.');
        }
    }
    assert(rel.skip(start) =~= piece);
    assert forall|j: int| 0 <= j < all.len() implies is_named(#[trigger] all[j]) by {
        if j == all.len() - 1 {
            assert(all[j] == all.last());
        }
    }
}

proof fn lemma_named_behind(a: Seq<Seq<char>>, b: Seq<Seq<char>>, absolute: bool)
    requires
        forall|j: int| 0 <= j < b.len() ==> is_named(#[trigger] b[j]),
    ensures
        named_pieces(a + b, absolute) == named_pieces(a, absolute) + b,
    decreases b.len(),
{
    if b.len() == 0 {
        assert(a + b =~= a);
        assert(named_pieces(a, absolute) + b =~= named_pieces(a, absolute));
    } else {
        let t = b.drop_last();
        assert((a + b).drop_last() =~= a + t);
        assert((a + b).last() == b.last());
        assert forall|j: int| 0 <= j < t.len() implies is_named(#[trigger] t[j]) by {
            assert(t[j] == b[j]);
        }
        lemma_named_behind(a, t, absolute);
        assert(is_named(b[b.len() - 1]));
        assert(named_pieces(a, absolute) + b =~= (named_pieces(a, absolute) + t).push(b.last()));
    }
}

/// The components of a plain path below a directory are those of the directory and its own.
pub proof fn lemma_plain_components(base: Seq<char>, rel: Seq<char>)
    requires
        is_plain(rel),
    ensures
        components(below(base, rel)) == components(base) + text::pieces(rel, '/'),
{
    lemma_plain_pieces(rel);
    let own = text::pieces(rel, '/');
    let whole = below(base, rel);
    assert(rel[0] != '/');
    if base.len() == 0 {
        assert(whole =~= rel);
        assert(base =~= Seq::<char>::empty());
        let none = Seq::<Seq<char>>::empty();
        lemma_named_behind(none, own, false);
        assert(none + own =~= own);
        assert(named_pieces(none, false) =~= none);
        let blank = seq![Seq::<char>::empty()];
        assert(blank.drop_last() =~= none);
        assert(named_pieces(blank, false) =~= none);
        assert(components(base) =~= none);
    } else {
        let front = if base.last() == '/' {
            base.drop_last()
        } else {
            base
        };
        assert(whole =~= front.push('/') + rel);
        lemma_pieces_joined(front, rel, '/');
        let absolute = is_absolute(base);
        assert(whole[0] == base[0]);
        lemma_named_behind(text::pieces(front, '/'), own, absolute);
        let named = named_pieces(text::pieces(front, '/'), absolute);
        assert(named_pieces(text::pieces(base, '/'), absolute) == named) by {
            if base.last() == '/' {
                let cut = text::pieces(base, '/');
                assert(cut.drop_last() =~= text::pieces(front, '/'));
                assert(cut.last().len() == 0);
            }
        }
        assert(components(whole) =~= components(base) + own);
    }
}

/// Two plain paths below one directory are the same path only where they are the same text.
pub proof fn lemma_plain_apart(base: Seq<char>, a: Seq<char>, b: Seq<char>)
    requires
        is_plain(a),
        is_plain(b),
        same_path(below(base, a), below(base, b)),
    ensures
        a == b,
{
    lemma_plain_components(base, a);
    lemma_plain_components(base, b);
    let front = components(base);
    let x = text::pieces(a, '/');
    let y = text::pieces(b, '/');
    assert(x =~= (front + x).skip(front.len() as int));
    assert(y =~= (front + y).skip(front.len() as int));
    lemma_pieces_tell(a, b, '/');
}

/// A plain path below a directory ends in what its own text ends in.
pub proof fn lemma_plain_end(base: Seq<char>, rel: Seq<char>)
    requires
        is_plain(rel),
    ensures
        components(below(base, rel)).len() > 0,
        ({
            let w = components(below(base, rel)).last();
            &&& w.len() <= rel.len()
            &&& w == rel.skip(rel.len() - w.len())
        }),
{
    lemma_plain_pieces(rel);
    lemma_plain_components(base, rel);
    let own = text::pieces(rel, '/');
    assert((components(base) + own).last() == own.last());
}

/// A name behind a slash adds one component to a path, whatever the path, and a slash or a dot
/// at its end adds none.
pub proof fn law_a_name_adds_one_component(a: Seq<char>, w: Seq<char>)
    requires
        a.len() > 0,
        w.len() > 0,
        !w.contains('/'),
        w != seq!['.'],
    ensures
        components(a.push('/') + w) == components(a).push(w),
        components(a.push('/')) == components(a),
        components(a.push('/').push('.')) == components(a),
{
    broadcast use text::lemma_pieces_nonempty;

    let cut = text::pieces(a, '/');
    let whole = a.push('/') + w;
    lemma_one_piece(w);
    lemma_pieces_joined(a, w, '/');
    assert(whole[0] == a[0]);
    assert(text::pieces(whole, '/') =~= cut.push(w));
    assert(cut.push(w).drop_last() =~= cut);
    assert(components(whole) =~= components(a).push(w));
    let empty = Seq::<char>::empty();
    let slashed = a.push('/');
    assert(slashed + empty =~= slashed);
    lemma_one_piece(empty);
    lemma_pieces_joined(a, empty, '/');
    assert(slashed[0] == a[0]);
    assert(text::pieces(slashed, '/') =~= cut.push(empty));
    assert(cut.push(empty).drop_last() =~= cut);
    let dot = seq!['.'];
    let dotted = slashed.push('.');
    assert(slashed + dot =~= dotted);
    assert(!dot.contains('/'));
    lemma_one_piece(dot);
    lemma_pieces_joined(a, dot, '/');
    assert(dotted[0] == a[0]);
    assert(text::pieces(dotted, '/') =~= cut.push(dot));
    assert(cut.push(dot).drop_last() =~= cut);
}

/// One name lies under another beside it only where they are the same: it is not enough that
/// it begins with it.
pub proof fn law_names_side_by_side_are_apart(a: Seq<char>, v: Seq<char>, w: Seq<char>)
    requires
        a.len() > 0,
        v.len() > 0,
        w.len() > 0,
        !v.contains('/'),
        !w.contains('/'),
        v != seq!['.'],
        w != seq!['.'],
    ensures
        is_under(a.push('/') + w, a.push('/') + v) <==> v == w,
        is_under(a.push('/') + w, a),
        !is_under(a, a.push('/') + w),
        is_name(w) ==> name_of(a.push('/') + w) == Some(w),
{
    law_a_name_adds_one_component(a, v);
    law_a_name_adds_one_component(a, w);
    let c = components(a);
    let x = components(a.push('/') + v);
    let y = components(a.push('/') + w);
    assert(x.last() == v && y.last() == w);
    assert(y.subrange(0, c.len() as int) =~= c);
    if v == w {
        lemma_is_under_itself(a.push('/') + v);
    } else if x.is_prefix_of(y) {
        assert(y.subrange(0, x.len() as int)[c.len() as int] == x[c.len() as int]);
    }
}

/// A file name is its stem, a dot and its extension, which holds no other dot; a name has none
/// exactly where no dot stands in it behind its first character.
pub proof fn law_a_name_is_its_stem_and_extension(name: Seq<char>)
    ensures
        match stem_and_extension(name) {
            (stem, Some(ext)) => name == stem.push('.') + ext && stem.len() > 0 && !ext.contains(
                '.',
            ),
            (stem, None) => stem == name && forall|i: int|
                0 < i < name.len() ==> #[trigger] name[i] != '.',
        },
{
    text::lemma_last_index(name, '.');
    text::law_a_cut_text_goes_together_again(name, '.');
    if let Some(i) = text::last_index(name, '.') {
        if i > 0 {
            assert(name =~= name.take(i).push('.') + name.skip(i + 1));
        }
    }
}

/// A relative path is put behind a directory with one slash between, and a path that begins at
/// the root is taken by itself.
pub proof fn law_a_path_is_joined_with_one_slash(base: Seq<char>, rel: Seq<char>)
    ensures
        rel.len() > 0 && rel[0] == '/' ==> below(base, rel) == rel,
        !(rel.len() > 0 && rel[0] == '/') && base.len() > 0 && base.last() != '/' ==> below(
            base,
            rel,
        ) == base + seq!['/'] + rel,
        !(rel.len() > 0 && rel[0] == '/') && base.len() > 0 && base.last() == '/' ==> below(
            base,
            rel,
        ) == base + rel,
        !(rel.len() > 0 && rel[0] == '/') && base.len() == 0 ==> below(base, rel) == rel,
{
    assert(base.push('/') + rel =~= base + seq!['/'] + rel);
    assert(base.len() == 0 ==> base + rel =~= rel);
}

proof fn lemma_components_behind(c: Seq<Seq<char>>, x: Seq<char>, y: Seq<char>)
    requires
        is_name(x),
        is_name(y),
        x != y,
    ensures
        components_le(c.push(x), c.push(y)) == order::text_le(x, y),
        components_le(c, c.push(x)),
        !components_le(c.push(x), c),
    decreases c.len(),
{
    let a = c.push(x);
    let b = c.push(y);
    if c.len() == 0 {
        assert(a[0] == x && b[0] == y);
    } else {
        let rest = c.drop_first();
        lemma_components_behind(rest, x, y);
        assert(a[0] == c[0] && b[0] == c[0]);
        assert(a.drop_first() =~= rest.push(x));
        assert(b.drop_first() =~= rest.push(y));
    }
}

/// Names in one directory are ordered as texts, and a directory stands before what lies in it.
pub proof fn law_paths_are_ordered_by_their_names(a: Seq<char>, x: Seq<char>, y: Seq<char>)
    requires
        a.len() > 0,
        x.len() > 0,
        y.len() > 0,
        !x.contains('/'),
        !y.contains('/'),
        is_name(x),
        is_name(y),
        x != y,
    ensures
        path_le(a.push('/') + x, a.push('/') + y) == order::text_le(x, y),
        path_le(a, a.push('/') + x),
        !path_le(a.push('/') + x, a),
{
    law_a_name_adds_one_component(a, x);
    law_a_name_adds_one_component(a, y);
    lemma_components_behind(components(a), x, y);
}

} // verus!

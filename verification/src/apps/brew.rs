//! Recognises an app that Homebrew installed, so removal goes through
//! `brew uninstall --cask --zap` and does not strand brew's own metadata.
use vstd::prelude::*;
use crate::text;
use crate::text::{ascii_lower, is_ascii_alnum};

verus! {

/// The letters and digits of a name in lower case, with a dash between two of them
/// where anything else stood between.
pub open spec fn slug_of(s: Seq<char>) -> Seq<char>
    decreases s.len(),
{
    if s.len() == 0 {
        Seq::empty()
    } else {
        let rest = s.drop_last();
        let before = slug_of(rest);
        if !is_ascii_alnum(s.last()) {
            before
        } else if before.len() > 0 && !is_ascii_alnum(rest.last()) {
            before.push('-').push(ascii_lower(s.last()))
        } else {
            before.push(ascii_lower(s.last()))
        }
    }
}

fn is_alnum(c: char) -> (r: bool)
    ensures
        r == is_ascii_alnum(c),
{
    ('0' <= c && c <= '9') || ('A' <= c && c <= 'Z') || ('a' <= c && c <= 'z')
}

/// `Cloudflare WARP` becomes `cloudflare-warp`, the shape of a cask token.
pub fn slug(app_name: &str) -> (r: String)
    ensures
        r@ == slug_of(app_name@),
{
    let chars = text::chars_of(app_name);
    let mut out: Vec<char> = Vec::new();
    let mut pending_dash: bool = false;
    for i in 0..chars.len()
        invariant
            chars@ == app_name@,
            out@ == slug_of(app_name@.take(i as int)),
            pending_dash == (i > 0 && !is_ascii_alnum(app_name@[i - 1])),
    {
        assert(app_name@.take(i + 1).drop_last() =~= app_name@.take(i as int));
        let c = chars[i];
        if is_alnum(c) {
            if pending_dash && out.len() > 0 {
                out.push('-');
            }
            pending_dash = false;
            out.push(text::lower_ascii(c));
            proof {
                lemma_slug_needs_text(app_name@.take(i as int));
            }
        } else {
            pending_dash = true;
        }
    }
    assert(app_name@.take(app_name@.len() as int) =~= app_name@);
    text::text_of(&out)
}

proof fn lemma_slug_needs_text(s: Seq<char>)
    ensures
        slug_of(s).len() > 0 ==> s.len() > 0,
{
}

/// The first token that reads as a name does.
pub open spec fn first_token(name: Seq<char>, tokens: Seq<String>) -> Option<String>
    decreases tokens.len(),
{
    if tokens.len() == 0 {
        None
    } else {
        match first_token(name, tokens.drop_last()) {
            Some(t) => Some(t),
            None => if slug_of(tokens.last()@) == slug_of(name) {
                Some(tokens.last())
            } else {
                None
            },
        }
    }
}

proof fn lemma_first_token_prefix(name: Seq<char>, tokens: Seq<String>, n: int)
    requires
        0 <= n <= tokens.len(),
        first_token(name, tokens.take(n)) is Some,
    ensures
        first_token(name, tokens) == first_token(name, tokens.take(n)),
    decreases tokens.len() - n,
{
    if n == tokens.len() {
        assert(tokens.take(n) =~= tokens);
    } else {
        assert(tokens.take(n + 1).drop_last() =~= tokens.take(n));
        lemma_first_token_prefix(name, tokens, n + 1);
    }
}

/// The installed cask token for `app_name`, if one plausibly matches.
pub fn match_cask(app_name: &str, installed: &[String]) -> (r: Option<String>)
    ensures
        text::text_opt(r) == (if slug_of(app_name@).len() == 0 {
            None
        } else {
            text::text_opt(first_token(app_name@, installed@))
        }),
{
    let wanted = slug(app_name);
    if wanted.as_str().is_empty() {
        return None;
    }
    for i in 0..installed.len()
        invariant
            wanted@ == slug_of(app_name@),
            wanted@.len() > 0,
            first_token(app_name@, installed@.take(i as int)) is None,
    {
        assert(installed@.take(i + 1).drop_last() =~= installed@.take(i as int));
        let token = slug(&installed[i]);
        if text::same(&token, &wanted) {
            proof {
                lemma_first_token_prefix(app_name@, installed@, i + 1);
            }
            return Some(installed[i].clone());
        }
    }
    assert(installed@.take(installed@.len() as int) =~= installed@);
    None
}

/// A token reads as itself, so a name and its token always match.
pub proof fn law_a_slug_is_its_own_slug(s: Seq<char>)
    ensures
        slug_of(slug_of(s)) == slug_of(s),
        slug_of(s).len() > 0 ==> is_ascii_alnum(slug_of(s).last()),
    decreases s.len(),
{
    if s.len() > 0 {
        let rest = s.drop_last();
        let t = slug_of(rest);
        law_a_slug_is_its_own_slug(rest);
        if is_ascii_alnum(s.last()) {
            let c = ascii_lower(s.last());
            assert(is_ascii_alnum(c) && ascii_lower(c) == c);
            if t.len() > 0 && !is_ascii_alnum(rest.last()) {
                let dashed = t.push('-');
                assert(dashed.drop_last() =~= t);
                assert(slug_of(dashed) == t);
                assert(dashed.push(c).drop_last() =~= dashed);
                assert(slug_of(dashed.push(c)) == t.push('-').push(c));
            } else {
                assert(t.push(c).drop_last() =~= t);
                assert(slug_of(t.push(c)) == t.push(c));
            }
        } else {
            assert(slug_of(s) == t);
        }
    } else {
        assert(slug_of(s) =~= s);
    }
}

/// Letters and digits behind anything else begin a new part of a slug, with one dash in front
/// of it where there is a part already, and are in lower case; anything else adds nothing.
pub proof fn law_a_slug_goes_word_by_word(a: Seq<char>, between: char, w: Seq<char>)
    requires
        !('0' <= between <= '9' || 'A' <= between <= 'Z' || 'a' <= between <= 'z'),
        w.len() > 0,
        forall|i: int|
            0 <= i < w.len() ==> '0' <= #[trigger] w[i] <= '9' || 'A' <= w[i] <= 'Z' || 'a' <= w[i]
                <= 'z',
    ensures
        slug_of(w) == w.map_values(|c: char| ascii_lower(c)),
        slug_of(a.push(between)) == slug_of(a),
        slug_of(a.push(between) + w) == (if slug_of(a).len() > 0 {
            slug_of(a).push('-')
        } else {
            Seq::empty()
        }) + w.map_values(|c: char| ascii_lower(c)),
    decreases w.len(),
{
    let lower = |c: char| ascii_lower(c);
    let front = a.push(between);
    let whole = front + w;
    let rest = w.drop_last();
    assert(front.drop_last() =~= a);
    assert(whole.drop_last() =~= front + rest);
    assert(whole.last() == w.last());
    assert(is_ascii_alnum(w[w.len() - 1]));
    assert(w.map_values(lower) =~= rest.map_values(lower).push(ascii_lower(w.last())));
    let start = if slug_of(a).len() > 0 {
        slug_of(a).push('-')
    } else {
        Seq::empty()
    };
    if rest.len() > 0 {
        assert forall|i: int| 0 <= i < rest.len() implies '0' <= #[trigger] rest[i] <= '9' || 'A'
            <= rest[i] <= 'Z' || 'a' <= rest[i] <= 'z' by {
            assert(rest[i] == w[i]);
        }
        law_a_slug_goes_word_by_word(a, between, rest);
        assert(is_ascii_alnum(rest[rest.len() - 1]));
        assert((front + rest).last() == rest.last());
        assert(slug_of(whole) =~= start + w.map_values(lower));
    } else {
        assert(front + rest =~= front);
        assert(slug_of(rest) =~= Seq::<char>::empty());
        assert(slug_of(w) =~= w.map_values(lower));
        assert(front.last() == between);
        assert(whole.drop_last() == front);
        assert(slug_of(front) == slug_of(a));
        let c = ascii_lower(w.last());
        assert(w.map_values(lower) =~= seq![c]);
        assert(slug_of(whole) == start.push(c)) by {
            if slug_of(a).len() == 0 {
                assert(slug_of(a) =~= Seq::<char>::empty());
            }
        }
        assert(slug_of(whole) =~= start + w.map_values(lower));
    }
}

/// An application is the cask whose name comes to the same slug, the first that does, and none
/// exactly where none does.
pub proof fn law_the_first_cask_of_the_same_slug_is_taken(name: Seq<char>, tokens: Seq<String>)
    ensures
        match first_token(name, tokens) {
            Some(t) => exists|k: int|
                {
                    &&& 0 <= k < tokens.len()
                    &&& #[trigger] tokens[k] == t
                    &&& slug_of(t@) == slug_of(name)
                    &&& forall|i: int| 0 <= i < k ==> slug_of((#[trigger] tokens[i])@) != slug_of(name)
                },
            None => forall|i: int|
                0 <= i < tokens.len() ==> slug_of((#[trigger] tokens[i])@) != slug_of(name),
        },
    decreases tokens.len(),
{
    if tokens.len() > 0 {
        let before = tokens.drop_last();
        law_the_first_cask_of_the_same_slug_is_taken(name, before);
        assert forall|i: int| 0 <= i < before.len() implies before[i] == #[trigger] tokens[i] by {}
        match first_token(name, before) {
            Some(t) => {
                let k = choose|k: int|
                    {
                        &&& 0 <= k < before.len()
                        &&& #[trigger] before[k] == t
                        &&& slug_of(t@) == slug_of(name)
                        &&& forall|i: int|
                            0 <= i < k ==> slug_of((#[trigger] before[i])@) != slug_of(name)
                    };
                assert(tokens[k] == t);
                assert forall|i: int| 0 <= i < k implies slug_of((#[trigger] tokens[i])@) != slug_of(
                    name,
                ) by {
                    assert(slug_of(before[i]@) != slug_of(name));
                }
            },
            None => {
                assert forall|i: int| 0 <= i < before.len() implies slug_of(
                    (#[trigger] tokens[i])@,
                ) != slug_of(name) by {
                    assert(slug_of(before[i]@) != slug_of(name));
                }
                let last = tokens.len() - 1;
                assert(tokens[last] == tokens.last());
            },
        }
    }
}

} // verus!

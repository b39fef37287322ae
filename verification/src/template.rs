use crate::text::{chars_of, string_of};
use vstd::prelude::*;
use vstd::string::{StrSliceExecFns, StringExecFns};
use vstd::utf8::{decode_utf8, encode_utf8, valid_utf8};

verus! {

/// `pat` stands in `s` at position `i`.
pub open spec fn occurs_at(s: Seq<char>, pat: Seq<char>, i: int) -> bool {
    0 <= i && i + pat.len() <= s.len() && s.subrange(i, i + pat.len()) == pat
}

/// `s` with every occurrence of `pat` replaced by `rep`. Occurrences are found
/// from left to right and do not overlap; what was put in is not searched again.
/// An empty `pat` occurs before every character and at the end.
pub open spec fn replaced(s: Seq<char>, pat: Seq<char>, rep: Seq<char>) -> Seq<char>
    decreases s.len(),
{
    if pat.len() == 0 {
        if s.len() == 0 {
            rep
        } else {
            rep + seq![s[0]] + replaced(s.skip(1), pat, rep)
        }
    } else if s.len() == 0 {
        s
    } else if occurs_at(s, pat, 0) {
        rep + replaced(s.skip(pat.len() as int), pat, rep)
    } else {
        seq![s[0]] + replaced(s.skip(1), pat, rep)
    }
}

/// Whether `pat` stands in `s` at position `i`.
pub fn occurs_at_index(s: &Vec<char>, pat: &Vec<char>, i: usize) -> (r: bool)
    requires
        i <= s.len(),
    ensures
        r == occurs_at(s@, pat@, i as int),
{
    if pat.len() > s.len() - i {
        return false;
    }
    let mut k: usize = 0;
    while k < pat.len()
        invariant
            i + pat.len() <= s.len(),
            k <= pat.len(),
            s@.subrange(i as int, i + k) == pat@.take(k as int),
        decreases pat.len() - k,
    {
        if s[i + k] != pat[k] {
            proof {
                let w = s@.subrange(i as int, i + pat.len());
                assert(w[k as int] == s@[i + k]);
            }
            return false;
        }
        proof {
            assert(s@.subrange(i as int, i + k + 1) == s@.subrange(i as int, i + k).push(
                s@[i + k],
            ));
            assert(pat@.take(k + 1) == pat@.take(k as int).push(pat@[k as int]));
        }
        k += 1;
    }
    proof {
        assert(pat@.take(pat@.len() as int) == pat@);
    }
    true
}

/// Appends the characters of `more` to `out`.
fn append_chars(out: &mut Vec<char>, more: &Vec<char>)
    ensures
        final(out)@ == old(out)@ + more@,
{
    let mut k: usize = 0;
    while k < more.len()
        invariant
            k <= more.len(),
            out@ == old(out)@ + more@.take(k as int),
        decreases more.len() - k,
    {
        out.push(more[k]);
        proof {
            assert(more@.take(k + 1) == more@.take(k as int).push(more@[k as int]));
        }
        k += 1;
    }
    proof {
        assert(more@.take(more@.len() as int) == more@);
    }
}

/// Replaces every occurrence of `pat` in `s` by `rep`.
pub fn replace_chars(s: &Vec<char>, pat: &Vec<char>, rep: &Vec<char>) -> (out: Vec<char>)
    ensures
        out@ == replaced(s@, pat@, rep@),
{
    let mut out: Vec<char> = Vec::new();
    let mut i: usize = 0;
    proof {
        assert(s@.skip(0) == s@);
    }
    while i < s.len()
        invariant
            i <= s.len(),
            replaced(s@, pat@, rep@) == out@ + replaced(s@.skip(i as int), pat@, rep@),
        decreases s.len() - i,
    {
        let ghost rest = s@.skip(i as int);
        let ghost before = out@;
        proof {
            assert(rest[0] == s@[i as int]);
            assert(rest.skip(1) == s@.skip(i + 1));
            if pat@.len() <= rest.len() {
                assert(rest.subrange(0, pat@.len() as int) == s@.subrange(
                    i as int,
                    i + pat@.len(),
                ));
            }
            assert(occurs_at(rest, pat@, 0) == occurs_at(s@, pat@, i as int));
        }
        if pat.len() > 0 && occurs_at_index(s, pat, i) {
            append_chars(&mut out, rep);
            proof {
                assert(rest.skip(pat@.len() as int) == s@.skip(i + pat@.len()));
                let tail = replaced(s@.skip(i + pat@.len()), pat@, rep@);
                assert(before + (rep@ + tail) == (before + rep@) + tail);
            }
            i += pat.len();
        } else {
            if pat.len() == 0 {
                append_chars(&mut out, rep);
            }
            out.push(s[i]);
            proof {
                let tail = replaced(s@.skip(i + 1), pat@, rep@);
                assert(before + (rep@ + seq![s@[i as int]] + tail) == (before + rep@).push(
                    s@[i as int],
                ) + tail);
                assert(before + (seq![s@[i as int]] + tail) == before.push(s@[i as int]) + tail);
            }
            i += 1;
        }
    }
    if pat.len() == 0 {
        append_chars(&mut out, rep);
    }
    proof {
        assert(s@.skip(s@.len() as int).len() == 0);
        assert(out@ + Seq::<char>::empty() == out@);
    }
    out
}

/// The placeholders that a page template may hold.
#[derive(Clone, Copy, Debug, PartialEq, Eq, Structural)]
pub enum Placeholder {
    Content,
    Title,
    NavCloud,
}

impl Placeholder {
    /// The token that stands for the placeholder in a template.
    pub open spec fn token(self) -> Seq<char> {
        match self {
            Placeholder::Content => "$CONTENT"@,
            Placeholder::Title => "$TITLE"@,
            Placeholder::NavCloud => "$NAVCLOUD"@,
        }
    }

    /// The token that stands for the placeholder in a template.
    pub fn as_str(self) -> (s: &'static str)
        ensures
            s@ == self.token(),
    {
        match self {
            Placeholder::Content => "$CONTENT",
            Placeholder::Title => "$TITLE",
            Placeholder::NavCloud => "$NAVCLOUD",
        }
    }
}

/// The views of a list of placeholder pairs.
pub open spec fn pair_views(pairs: Seq<(String, String)>) -> Seq<(Seq<char>, Seq<char>)> {
    Seq::new(pairs.len(), |i: int| (pairs[i].0@, pairs[i].1@))
}

/// `template` after each pair of `pairs`, taken in order, has had every
/// occurrence of its key replaced by its value.
pub open spec fn rendered(template: Seq<char>, pairs: Seq<(Seq<char>, Seq<char>)>) -> Seq<char>
    decreases pairs.len(),
{
    if pairs.len() == 0 {
        template
    } else {
        replaced(rendered(template, pairs.drop_last()), pairs.last().0, pairs.last().1)
    }
}

/// Fills a template: for each pair of `placeholders`, in order, every occurrence
/// of the key in the text so far is replaced by the value.
pub fn replace_placeholders(html_content: &str, placeholders: &Vec<(String, String)>) -> (result:
    String)
    ensures
        result@ == rendered(html_content@, pair_views(placeholders@)),
        placeholders@.len() == 0 ==> result@ == html_content@,
{
    let mut cur = chars_of(html_content);
    let mut i: usize = 0;
    let ghost pairs = pair_views(placeholders@);
    while i < placeholders.len()
        invariant
            i <= placeholders.len(),
            pairs == pair_views(placeholders@),
            cur@ == rendered(html_content@, pairs.take(i as int)),
        decreases placeholders.len() - i,
    {
        let key = chars_of(placeholders[i].0.as_str());
        let value = chars_of(placeholders[i].1.as_str());
        proof {
            assert(pairs.take(i + 1).drop_last() == pairs.take(i as int));
            assert(pairs.take(i + 1).last() == (key@, value@));
        }
        cur = replace_chars(&cur, &key, &value);
        i += 1;
    }
    proof {
        assert(pairs.take(pairs.len() as int) == pairs);
    }
    string_of(&cur)
}

/// A key that occurs nowhere in a text leaves the text as it is.
pub proof fn lemma_replaced_without_occurrence(s: Seq<char>, pat: Seq<char>, rep: Seq<char>)
    requires
        pat.len() > 0,
        forall|k: int| !occurs_at(s, pat, k),
    ensures
        replaced(s, pat, rep) == s,
    decreases s.len(),
{
    if s.len() > 0 {
        let rest = s.skip(1);
        assert(!occurs_at(s, pat, 0));
        assert forall|k: int| !occurs_at(rest, pat, k) by {
            if occurs_at(rest, pat, k) {
                assert(s.subrange(k + 1, k + 1 + pat.len()) == rest.subrange(k, k + pat.len()));
                assert(occurs_at(s, pat, k + 1));
            }
        }
        lemma_replaced_without_occurrence(rest, pat, rep);
        assert(seq![s[0]] + rest == s);
    }
}

/// No character of `a` is a character of `b`.
pub open spec fn share_no_char(a: Seq<char>, b: Seq<char>) -> bool {
    forall|i: int, j: int| 0 <= i < a.len() && 0 <= j < b.len() ==> a[i] != b[j]
}

/// Where a replacement puts in a text that is not empty and shares no character
/// with `w`, a result that begins with `w` comes from a text that begins with `w`.
pub proof fn lemma_prefix_survives(s: Seq<char>, pat: Seq<char>, rep: Seq<char>, w: Seq<char>)
    requires
        pat.len() > 0,
        rep.len() > 0,
        share_no_char(rep, w),
        occurs_at(replaced(s, pat, rep), w, 0),
    ensures
        occurs_at(s, w, 0),
    decreases s.len(),
{
    let out = replaced(s, pat, rep);
    if w.len() == 0 {
        assert(s.subrange(0, 0) == w);
    } else {
        assert(out.subrange(0, w.len() as int)[0] == w[0]);
        if s.len() == 0 {
        } else if occurs_at(s, pat, 0) {
            assert(out[0] == rep[0]);
        } else {
            let tail = replaced(s.skip(1), pat, rep);
            assert(out == seq![s[0]] + tail);
            assert(tail.subrange(0, w.len() - 1) == w.skip(1)) by {
                assert forall|i: int| 0 <= i < w.len() - 1 implies tail[i] == w[i + 1] by {
                    assert(out.subrange(0, w.len() as int)[i + 1] == w[i + 1]);
                }
            }
            lemma_prefix_survives(s.skip(1), pat, rep, w.skip(1));
            assert(s.subrange(0, w.len() as int) == w) by {
                assert forall|i: int| 0 <= i < w.len() implies s[i] == w[i] by {
                    if i > 0 {
                        assert(s.skip(1).subrange(0, w.len() - 1)[i - 1] == w.skip(1)[i - 1]);
                    }
                }
            }
        }
    }
}

/// Where a replacement puts in a text that is not empty and shares no character
/// with `q`, it makes no new occurrence of `q`: one in the result was in the
/// text before. And the key that was replaced does not occur in the result.
pub proof fn lemma_no_new_occurrence(
    s: Seq<char>,
    pat: Seq<char>,
    rep: Seq<char>,
    q: Seq<char>,
    k: int,
)
    requires
        pat.len() > 0,
        rep.len() > 0,
        q.len() > 0,
        share_no_char(rep, q),
        occurs_at(replaced(s, pat, rep), q, k),
    ensures
        q != pat,
        exists|j: int| occurs_at(s, q, j),
    decreases s.len(),
{
    let out = replaced(s, pat, rep);
    assert(out.subrange(k, k + q.len())[0] == q[0]);
    if s.len() == 0 {
    } else if occurs_at(s, pat, 0) {
        let rest = s.skip(pat.len() as int);
        let tail = replaced(rest, pat, rep);
        assert(out == rep + tail);
        if k < rep.len() {
            assert(out[k] == rep[k]);
        } else {
            let m = k - rep.len();
            assert(tail.subrange(m, m + q.len()) == q) by {
                assert forall|i: int| 0 <= i < q.len() implies tail[m + i] == q[i] by {
                    assert(out.subrange(k, k + q.len())[i] == q[i]);
                }
            }
            lemma_no_new_occurrence(rest, pat, rep, q, m);
            let j = choose|j: int| occurs_at(rest, q, j);
            assert(s.subrange(j + pat.len(), j + pat.len() + q.len()) == rest.subrange(
                j,
                j + q.len(),
            ));
            assert(occurs_at(s, q, j + pat.len()));
        }
    } else {
        let rest = s.skip(1);
        let tail = replaced(rest, pat, rep);
        assert(out == seq![s[0]] + tail);
        if k == 0 {
            lemma_prefix_survives(s, pat, rep, q);
        } else {
            assert(tail.subrange(k - 1, k - 1 + q.len()) == q) by {
                assert forall|i: int| 0 <= i < q.len() implies tail[k - 1 + i] == q[i] by {
                    assert(out.subrange(k, k + q.len())[i] == q[i]);
                }
            }
            lemma_no_new_occurrence(rest, pat, rep, q, k - 1);
            let j = choose|j: int| occurs_at(rest, q, j);
            assert(s.subrange(j + 1, j + 1 + q.len()) == rest.subrange(j, j + q.len()));
            assert(occurs_at(s, q, j + 1));
        }
    }
}

/// After a key has been replaced by a value that is not empty and shares no
/// character with it, the key occurs nowhere in the result.
pub proof fn lemma_replaced_leaves_no_key(s: Seq<char>, pat: Seq<char>, rep: Seq<char>)
    requires
        pat.len() > 0,
        rep.len() > 0,
        share_no_char(rep, pat),
    ensures
        forall|k: int| !occurs_at(replaced(s, pat, rep), pat, k),
{
    assert forall|k: int| !occurs_at(replaced(s, pat, rep), pat, k) by {
        if occurs_at(replaced(s, pat, rep), pat, k) {
            lemma_no_new_occurrence(s, pat, rep, pat, k);
        }
    }
}

/// Where no key and no value is empty and no value shares a character with any
/// key, a rendered template holds none of the keys.
pub proof fn lemma_rendered_leaves_no_key(
    template: Seq<char>,
    pairs: Seq<(Seq<char>, Seq<char>)>,
    i: int,
)
    requires
        0 <= i < pairs.len(),
        forall|a: int| 0 <= a < pairs.len() ==> (#[trigger] pairs[a]).0.len() > 0 && pairs[a].1.len() > 0,
        forall|a: int, b: int|
            0 <= a < pairs.len() && 0 <= b < pairs.len() ==> share_no_char(
                (#[trigger] pairs[a]).1,
                (#[trigger] pairs[b]).0,
            ),
    ensures
        forall|k: int| !occurs_at(rendered(template, pairs), pairs[i].0, k),
    decreases pairs.len(),
{
    let earlier = pairs.drop_last();
    let last = pairs.last();
    let before = rendered(template, earlier);
    assert(share_no_char(last.1, last.0));
    if i == pairs.len() - 1 {
        lemma_replaced_leaves_no_key(before, last.0, last.1);
    } else {
        assert(earlier[i] == pairs[i]);
        assert forall|a: int, b: int| 0 <= a < earlier.len() && 0 <= b < earlier.len() implies share_no_char(
            (#[trigger] earlier[a]).1,
            (#[trigger] earlier[b]).0,
        ) by {
            assert(earlier[a] == pairs[a] && earlier[b] == pairs[b]);
        }
        assert forall|a: int| 0 <= a < earlier.len() implies (#[trigger] earlier[a]).0.len() > 0
            && earlier[a].1.len() > 0 by {
            assert(earlier[a] == pairs[a]);
        }
        lemma_rendered_leaves_no_key(template, earlier, i);
        assert(share_no_char(last.1, pairs[i].0));
        assert forall|k: int| !occurs_at(rendered(template, pairs), pairs[i].0, k) by {
            if occurs_at(rendered(template, pairs), pairs[i].0, k) {
                lemma_no_new_occurrence(before, last.0, last.1, pairs[i].0, k);
            }
        }
    }
}

/// `key` begins with `marker` and holds it nowhere else.
pub open spec fn marked(key: Seq<char>, marker: char) -> bool {
    key.len() > 0 && key[0] == marker && forall|t: int| 1 <= t < key.len() ==> key[t] != marker
}

/// `text` does not hold `marker`.
pub open spec fn free_of(text: Seq<char>, marker: char) -> bool {
    forall|t: int| 0 <= t < text.len() ==> text[t] != marker
}

/// One of `keys` stands in `text` at position `p`.
pub open spec fn begins_key(text: Seq<char>, keys: Seq<Seq<char>>, p: int) -> bool {
    exists|i: int| 0 <= i < keys.len() && occurs_at(text, #[trigger] keys[i], p)
}

/// Wherever `marker` stands in `text`, one of `keys` begins.
pub open spec fn markers_begin_keys(text: Seq<char>, keys: Seq<Seq<char>>, marker: char) -> bool {
    forall|p: int| 0 <= p < text.len() && text[p] == marker ==> begins_key(text, keys, p)
}

/// The keys of a list of pairs.
pub open spec fn keys_of(pairs: Seq<(Seq<char>, Seq<char>)>) -> Seq<Seq<char>> {
    Seq::new(pairs.len(), |i: int| pairs[i].0)
}

/// Every key of `pairs` begins with `marker` and holds it nowhere else, and no
/// value holds it.
pub open spec fn marked_pairs(pairs: Seq<(Seq<char>, Seq<char>)>, marker: char) -> bool {
    forall|a: int|
        0 <= a < pairs.len() ==> marked((#[trigger] pairs[a]).0, marker) && free_of(
            pairs[a].1,
            marker,
        )
}

/// An occurrence in what is left of a text after its first `d` characters is
/// an occurrence in the text, `d` places further on.
pub proof fn lemma_occurs_in_suffix(s: Seq<char>, w: Seq<char>, d: int, p: int)
    requires
        0 <= d <= s.len(),
        0 <= p,
    ensures
        occurs_at(s.skip(d), w, p) == occurs_at(s, w, p + d),
{
    if p + d + w.len() <= s.len() {
        assert(s.skip(d).subrange(p, p + w.len()) == s.subrange(p + d, p + d + w.len()));
    }
}

/// An occurrence in the second of two joined texts is an occurrence in the
/// whole, behind the first.
pub proof fn lemma_occurs_after_prefix(a: Seq<char>, b: Seq<char>, w: Seq<char>, p: int)
    requires
        0 <= p,
    ensures
        occurs_at(a + b, w, a.len() + p) == occurs_at(b, w, p),
{
    if p + w.len() <= b.len() {
        assert((a + b).subrange(a.len() + p, a.len() + p + w.len()) == b.subrange(
            p,
            p + w.len(),
        ));
    }
}

/// A text that begins with `u`, which does not hold the first character of the
/// key, still begins with `u` after the key has been replaced.
pub proof fn lemma_unmarked_prefix_stays(
    r: Seq<char>,
    pat: Seq<char>,
    rep: Seq<char>,
    u: Seq<char>,
    marker: char,
)
    requires
        pat.len() > 0,
        pat[0] == marker,
        free_of(u, marker),
        occurs_at(r, u, 0),
    ensures
        occurs_at(replaced(r, pat, rep), u, 0),
    decreases u.len(),
{
    let out = replaced(r, pat, rep);
    if u.len() == 0 {
        assert(out.subrange(0, 0) == u);
    } else {
        assert(r.subrange(0, u.len() as int)[0] == u[0]);
        if occurs_at(r, pat, 0) {
            assert(r.subrange(0, pat.len() as int)[0] == pat[0]);
        }
        let rest = r.skip(1);
        let tail = replaced(rest, pat, rep);
        assert(out == seq![r[0]] + tail);
        assert(rest.subrange(0, u.len() - 1) == u.skip(1)) by {
            assert forall|i: int| 0 <= i < u.len() - 1 implies rest[i] == u[i + 1] by {
                assert(r.subrange(0, u.len() as int)[i + 1] == u[i + 1]);
            }
        }
        lemma_unmarked_prefix_stays(rest, pat, rep, u.skip(1), marker);
        assert(out.subrange(0, u.len() as int) == u) by {
            assert forall|i: int| 0 <= i < u.len() implies out[i] == u[i] by {
                if i > 0 {
                    assert(tail.subrange(0, u.len() - 1)[i - 1] == u.skip(1)[i - 1]);
                }
            }
        }
    }
}

/// Where every marker in a text begins the key or one of `keys`, every marker
/// that is left after the key has been replaced begins one of `keys`.
pub proof fn lemma_markers_after_replacing(
    s: Seq<char>,
    pat: Seq<char>,
    rep: Seq<char>,
    keys: Seq<Seq<char>>,
    marker: char,
)
    requires
        marked(pat, marker),
        free_of(rep, marker),
        forall|i: int| 0 <= i < keys.len() ==> marked(#[trigger] keys[i], marker),
        forall|p: int|
            0 <= p < s.len() && s[p] == marker ==> occurs_at(s, pat, p) || begins_key(s, keys, p),
    ensures
        markers_begin_keys(replaced(s, pat, rep), keys, marker),
    decreases s.len(),
{
    let out = replaced(s, pat, rep);
    if s.len() > 0 {
        let hit = occurs_at(s, pat, 0);
        let d: int = if hit { pat.len() as int } else { 1 };
        let head = if hit { rep } else { seq![s[0]] };
        let rest = s.skip(d);
        let tail = replaced(rest, pat, rep);
        assert(out == head + tail);
        assert forall|p: int| 0 <= p < rest.len() && rest[p] == marker implies occurs_at(
            rest,
            pat,
            p,
        ) || begins_key(rest, keys, p) by {
            assert(s[p + d] == marker);
            lemma_occurs_in_suffix(s, pat, d, p);
            if begins_key(s, keys, p + d) {
                let i = choose|i: int| 0 <= i < keys.len() && occurs_at(s, #[trigger] keys[i], p + d);
                lemma_occurs_in_suffix(s, keys[i], d, p);
            }
        }
        lemma_markers_after_replacing(rest, pat, rep, keys, marker);
        assert forall|p: int| 0 <= p < out.len() && out[p] == marker implies begins_key(
            out,
            keys,
            p,
        ) by {
            if p < head.len() {
                if hit {
                    assert(out[p] == rep[p]);
                } else {
                    assert(s[0] == marker);
                    let i = choose|i: int| 0 <= i < keys.len() && occurs_at(s, #[trigger] keys[i], 0);
                    let w = keys[i];
                    assert(marked(w, marker));
                    lemma_occurs_in_suffix(s, w.skip(1), 1, 0);
                    assert(s.subrange(1, w.len() as int) == s.subrange(0, w.len() as int).skip(1));
                    assert(occurs_at(rest, w.skip(1), 0));
                    lemma_unmarked_prefix_stays(rest, pat, rep, w.skip(1), marker);
                    assert(out.subrange(0, w.len() as int) == w) by {
                        assert(s.subrange(0, w.len() as int)[0] == w[0]);
                        assert forall|t: int| 0 <= t < w.len() implies out[t] == w[t] by {
                            if t > 0 {
                                assert(tail.subrange(0, w.len() - 1)[t - 1] == w.skip(1)[t - 1]);
                            }
                        }
                    }
                    assert(occurs_at(out, keys[i], 0));
                }
            } else {
                let q = p - head.len();
                assert(tail[q] == marker);
                let i = choose|i: int| 0 <= i < keys.len() && occurs_at(tail, #[trigger] keys[i], q);
                lemma_occurs_after_prefix(head, tail, keys[i], q);
                assert(occurs_at(out, keys[i], p));
            }
        }
    }
}

/// After the first `j` pairs have been applied, every marker that is left
/// begins the key of a later pair.
pub proof fn lemma_markers_after_rendering(
    template: Seq<char>,
    pairs: Seq<(Seq<char>, Seq<char>)>,
    marker: char,
    j: int,
)
    requires
        0 <= j <= pairs.len(),
        marked_pairs(pairs, marker),
        markers_begin_keys(template, keys_of(pairs), marker),
    ensures
        markers_begin_keys(rendered(template, pairs.take(j)), keys_of(pairs).skip(j), marker),
    decreases j,
{
    let keys = keys_of(pairs);
    if j == 0 {
        assert(pairs.take(0) == Seq::<(Seq<char>, Seq<char>)>::empty());
        assert(keys.skip(0) == keys);
    } else {
        lemma_markers_after_rendering(template, pairs, marker, j - 1);
        let text = rendered(template, pairs.take(j - 1));
        let pat = pairs[j - 1].0;
        let rep = pairs[j - 1].1;
        let now = keys.skip(j - 1);
        let later = keys.skip(j);
        assert(pairs.take(j).drop_last() == pairs.take(j - 1));
        assert(pairs.take(j).last() == pairs[j - 1]);
        assert(rendered(template, pairs.take(j)) == replaced(text, pat, rep));
        assert forall|i: int| 0 <= i < later.len() implies marked(#[trigger] later[i], marker) by {
            assert(later[i] == pairs[j + i].0);
        }
        assert forall|p: int| 0 <= p < text.len() && text[p] == marker implies occurs_at(
            text,
            pat,
            p,
        ) || begins_key(text, later, p) by {
            assert(begins_key(text, now, p));
            let i = choose|i: int| 0 <= i < now.len() && occurs_at(text, #[trigger] now[i], p);
            if i == 0 {
                assert(now[0] == pat);
            } else {
                assert(later[i - 1] == now[i]);
            }
        }
        lemma_markers_after_replacing(text, pat, rep, later, marker);
    }
}

/// Where every key begins with a marker character that stands nowhere else in
/// a key and in no value, and every marker in the template begins a key, a
/// rendered template holds no marker and none of the keys. The values are
/// free otherwise, and may be empty.
pub proof fn lemma_marked_keys_all_replaced(
    template: Seq<char>,
    pairs: Seq<(Seq<char>, Seq<char>)>,
    marker: char,
)
    requires
        marked_pairs(pairs, marker),
        markers_begin_keys(template, keys_of(pairs), marker),
    ensures
        free_of(rendered(template, pairs), marker),
        forall|a: int, k: int|
            0 <= a < pairs.len() ==> !#[trigger] occurs_at(rendered(template, pairs), pairs[a].0, k),
{
    let out = rendered(template, pairs);
    lemma_markers_after_rendering(template, pairs, marker, pairs.len() as int);
    assert(pairs.take(pairs.len() as int) == pairs);
    assert forall|t: int| 0 <= t < out.len() implies out[t] != marker by {
        if out[t] == marker {
            assert(begins_key(out, keys_of(pairs).skip(pairs.len() as int), t));
        }
    }
    assert forall|a: int, k: int| 0 <= a < pairs.len() implies !#[trigger] occurs_at(
        out,
        pairs[a].0,
        k,
    ) by {
        if occurs_at(out, pairs[a].0, k) {
            assert(marked(pairs[a].0, marker));
            assert(out.subrange(k, k + pairs[a].0.len())[0] == pairs[a].0[0]);
        }
    }
}

/// Rendering with no pair at all gives the template back.
pub proof fn lemma_rendered_without_pairs(template: Seq<char>)
    ensures
        rendered(template, Seq::empty()) == template,
{
}

/// The text that `String::from_utf8_lossy` makes of `bytes`.
pub uninterp spec fn lossy_text(bytes: Seq<u8>) -> Seq<char>;

/// `String::from_utf8_lossy`: decodes bytes as UTF-8, putting U+FFFD in place of
/// what is malformed. Bytes that are valid UTF-8 are decoded as they stand.
#[verifier::external_body]
pub(crate) fn decode_lossy(bytes: &Vec<u8>) -> (text: String)
    ensures
        text@ == lossy_text(bytes@),
        valid_utf8(bytes@) ==> text@ == decode_utf8(bytes@),
{
    String::from_utf8_lossy(bytes).into_owned()
}

/// `text` as paragraphs: every line feed closes one paragraph and opens the next.
pub open spec fn paragraphs_of(text: Seq<char>) -> Seq<char> {
    "<p>"@ + replaced(text, "\n"@, "</p><p>"@) + "</p>"@
}

/// Wraps `text` in paragraph tags, one paragraph per line.
pub fn paragraphs(text: &str) -> (html: String)
    ensures
        html@ == paragraphs_of(text@),
{
    let body = replace_chars(&chars_of(text), &chars_of("\n"), &chars_of("</p><p>"));
    let mut html = "<p>".to_owned();
    html.append(string_of(&body).as_str());
    html.append("</p>");
    html
}

/// Turns plain text, given as bytes, into the bytes of an HTML fragment with one
/// paragraph per line. Malformed UTF-8 is decoded lossily.
pub fn txt_to_html(content: Vec<u8>) -> (html: Vec<u8>)
    ensures
        html@ == encode_utf8(paragraphs_of(lossy_text(content@))),
        valid_utf8(content@) ==> html@ == encode_utf8(paragraphs_of(decode_utf8(content@))),
{
    let text = decode_lossy(&content);
    let html = paragraphs(text.as_str());
    html.as_str().as_bytes_vec()
}

} // verus!

//! Tag normalization: turning free-text tag input into a canonical,
//! ordered, duplicate-free list of lowercase tags, and rendering such a
//! list back to its stored text form.

use vstd::prelude::*;

verus! {

/// Relies on `core::iter::Iterator::collect` through `String`'s
/// `FromIterator<char>`: the collected string holds exactly the characters
/// of the slice, in order.
#[verifier::external_body]
pub fn chars_to_string(v: &Vec<char>) -> (s: String)
    ensures
        s@ == v@,
{
    v.iter().collect()
}

/// Copy the characters of a string into a vector.
pub fn string_to_chars(s: &str) -> (v: Vec<char>)
    ensures
        v@ == s@,
{
    let n = s.unicode_len();
    let mut v: Vec<char> = Vec::new();
    let mut i: usize = 0;
    while i < n
        invariant
            i <= n,
            n == s@.len(),
            v@ == s@.take(i as int),
        decreases n - i,
    {
        v.push(s.get_char(i));
        assert(v@ =~= s@.take(i as int + 1));
        i = i + 1;
    }
    assert(v@ =~= s@);
    v
}

/// `c` is whitespace as trimming understands it.
pub open spec fn is_ws(c: char) -> bool {
    c == ' ' || c == '\t' || c == '\n' || c == '\r'
}

/// The lowercase form of `c`: ASCII letters are folded, anything else is
/// kept.
pub open spec fn lower_char(c: char) -> char {
    if 'A' <= c && c <= 'Z' {
        (((c as u32) + 32) as u8) as char
    } else {
        c
    }
}

/// Pointwise lowercase of a character sequence.
pub open spec fn lower_seq(s: Seq<char>) -> Seq<char> {
    s.map_values(|c: char| lower_char(c))
}

/// `s` without its leading whitespace.
pub open spec fn trim_front(s: Seq<char>) -> Seq<char>
    decreases s.len(),
{
    if s.len() > 0 && is_ws(s[0]) {
        trim_front(s.drop_first())
    } else {
        s
    }
}

/// `s` without its trailing whitespace.
pub open spec fn trim_back(s: Seq<char>) -> Seq<char>
    decreases s.len(),
{
    if s.len() > 0 && is_ws(s.last()) {
        trim_back(s.drop_last())
    } else {
        s
    }
}

/// `s` without leading and trailing whitespace.
pub open spec fn trim_spec(s: Seq<char>) -> Seq<char> {
    trim_back(trim_front(s))
}

/// The fragments of `s` between its `#` delimiters: always one more
/// fragment than there are delimiters, each fragment free of `#`.
pub open spec fn split_hash(s: Seq<char>) -> Seq<Seq<char>>
    decreases s.len(),
{
    if s.len() == 0 {
        seq![Seq::empty()]
    } else if s[0] == '#' {
        seq![Seq::<char>::empty()] + split_hash(s.drop_first())
    } else {
        let rest = split_hash(s.drop_first());
        seq![seq![s[0]] + rest[0]] + rest.drop_first()
    }
}

/// Trim and lowercase each fragment and drop the ones that are left
/// empty, keeping the order.
pub open spec fn clean_frags(fr: Seq<Seq<char>>) -> Seq<Seq<char>>
    decreases fr.len(),
{
    if fr.len() == 0 {
        Seq::empty()
    } else {
        let rest = clean_frags(fr.drop_last());
        let x = lower_seq(trim_spec(fr.last()));
        if x.len() == 0 {
            rest
        } else {
            rest.push(x)
        }
    }
}

/// Drop every repetition of an earlier element, keeping first-seen order.
pub open spec fn dedup_frags(fr: Seq<Seq<char>>) -> Seq<Seq<char>>
    decreases fr.len(),
{
    if fr.len() == 0 {
        Seq::empty()
    } else {
        let rest = dedup_frags(fr.drop_last());
        if rest.contains(fr.last()) {
            rest
        } else {
            rest.push(fr.last())
        }
    }
}

/// The canonical tag list of raw tag text: split on `#`, trim each
/// fragment, drop empty fragments, lowercase, and drop case-insensitive
/// repetitions while keeping first-seen order.
pub open spec fn normalize_spec(s: Seq<char>) -> Seq<Seq<char>> {
    dedup_frags(clean_frags(split_hash(s)))
}

/// The stored text form of a tag list: the tags joined with `" #"`, no
/// leading delimiter.
pub open spec fn render_spec(ts: Seq<Seq<char>>) -> Seq<char>
    decreases ts.len(),
{
    if ts.len() == 0 {
        Seq::empty()
    } else if ts.len() == 1 {
        ts[0]
    } else {
        ts[0] + seq![' ', '#'] + render_spec(ts.drop_first())
    }
}

/// Executable whitespace test.
fn ws_char(c: char) -> (r: bool)
    ensures
        r == is_ws(c),
{
    c == ' ' || c == '\t' || c == '\n' || c == '\r'
}

/// Executable lowercase of one character.
fn lower_char_exec(c: char) -> (r: char)
    ensures
        r == lower_char(c),
{
    if 'A' <= c && c <= 'Z' {
        (((c as u32) + 32) as u8) as char
    } else {
        c
    }
}

/// Executable pointwise lowercase.
fn lower_chars(v: &Vec<char>) -> (r: Vec<char>)
    ensures
        r@ == lower_seq(v@),
{
    let mut r: Vec<char> = Vec::new();
    let mut i: usize = 0;
    while i < v.len()
        invariant
            i <= v@.len(),
            r@ == lower_seq(v@.take(i as int)),
        decreases v@.len() - i,
    {
        r.push(lower_char_exec(v[i]));
        assert(r@ =~= lower_seq(v@.take(i as int + 1)));
        i = i + 1;
    }
    assert(v@.take(v@.len() as int) =~= v@);
    r
}

/// Trim whitespace from both ends of a string.
pub fn trim_str(s: &str) -> (r: String)
    ensures
        r@ == trim_spec(s@),
{
    let v = string_to_chars(s);
    let w = trim_chars(&v);
    chars_to_string(&w)
}

pub proof fn lemma_trim_front_skip_ws(s: Seq<char>, k: int)
    requires
        0 <= k <= s.len(),
        forall|j: int| 0 <= j < k ==> is_ws(s[j]),
    ensures
        trim_front(s) == trim_front(s.skip(k)),
    decreases k,
{
    if k > 0 {
        assert(s.len() > 0 && is_ws(s[0]));
        assert(s.drop_first() =~= s.skip(1));
        lemma_trim_front_skip_ws(s.skip(1), k - 1);
        assert(s.skip(1).skip(k - 1) =~= s.skip(k));
    } else {
        assert(s.skip(0) =~= s);
    }
}

pub proof fn lemma_trim_back_take_ws(s: Seq<char>, k: int)
    requires
        0 <= k <= s.len(),
        forall|j: int| k <= j < s.len() ==> is_ws(s[j]),
    ensures
        trim_back(s) == trim_back(s.take(k)),
    decreases s.len() - k,
{
    if k < s.len() {
        assert(is_ws(s.last()));
        assert(s.drop_last() =~= s.take(s.len() - 1));
        lemma_trim_back_take_ws(s.take(s.len() - 1), k);
        assert(s.take(s.len() - 1).take(k) =~= s.take(k));
    } else {
        assert(s.take(s.len() as int) =~= s);
    }
}

/// Executable trim of both ends.
fn trim_chars(v: &Vec<char>) -> (r: Vec<char>)
    ensures
        r@ == trim_spec(v@),
{
    let n = v.len();
    let mut a: usize = 0;
    while a < n && ws_char(v[a])
        invariant
            a <= n,
            n == v@.len(),
            forall|j: int| 0 <= j < a ==> is_ws(v@[j]),
        decreases n - a,
    {
        a = a + 1;
    }
    let mut b: usize = n;
    while b > a && ws_char(v[b - 1])
        invariant
            a <= b <= n,
            n == v@.len(),
            forall|j: int| b <= j < n ==> is_ws(v@[j]),
        decreases b,
    {
        b = b - 1;
    }
    let mut r: Vec<char> = Vec::new();
    let mut i: usize = a;
    while i < b
        invariant
            a <= i <= b <= n,
            n == v@.len(),
            r@ == v@.subrange(a as int, i as int),
        decreases b - i,
    {
        r.push(v[i]);
        assert(r@ =~= v@.subrange(a as int, i as int + 1));
        i = i + 1;
    }
    proof {
        lemma_trim_front_skip_ws(v@, a as int);
        let u = v@.skip(a as int);
        if a < n {
            assert(!is_ws(u[0]));
        }
        assert(trim_front(u) == u);
        lemma_trim_back_take_ws(u, b - a);
        let w = u.take(b - a);
        if b > a {
            assert(!is_ws(w.last()));
        }
        assert(trim_back(w) == w);
        assert(r@ =~= w);
    }
    r
}


/// The element views of a vector of character vectors.
pub open spec fn frag_views(fr: Seq<Vec<char>>) -> Seq<Seq<char>> {
    fr.map_values(|f: Vec<char>| f@)
}

pub proof fn lemma_split_hash_nonempty(s: Seq<char>)
    ensures
        split_hash(s).len() >= 1,
    decreases s.len(),
{
    if s.len() > 0 {
        lemma_split_hash_nonempty(s.drop_first());
    }
}

/// Executable split on `#`.
fn split_hash_exec(v: &Vec<char>) -> (r: Vec<Vec<char>>)
    ensures
        frag_views(r@) == split_hash(v@),
{
    let n = v.len();
    let mut frags: Vec<Vec<char>> = Vec::new();
    let mut cur: Vec<char> = Vec::new();
    let mut i: usize = 0;
    proof {
        lemma_split_hash_nonempty(v@);
        assert(v@.skip(0) =~= v@);
        assert(split_hash(v@) =~~= frag_views(frags@) + seq![cur@ + split_hash(v@.skip(0))[0]]
            + split_hash(v@.skip(0)).drop_first());
    }
    while i < n
        invariant
            i <= n,
            n == v@.len(),
            split_hash(v@) == frag_views(frags@) + seq![cur@ + split_hash(v@.skip(i as int))[0]]
                + split_hash(v@.skip(i as int)).drop_first(),
        decreases n - i,
    {
        proof {
            let rem = v@.skip(i as int);
            assert(rem.len() > 0);
            assert(rem[0] == v@[i as int]);
            assert(rem.drop_first() =~= v@.skip(i as int + 1));
            lemma_split_hash_nonempty(v@.skip(i as int + 1));
        }
        if v[i] == '#' {
            frags.push(cur);
            cur = Vec::new();
            assert(frag_views(frags@) =~~= frag_views(frags@.drop_last()).push(
                frags@.last()@,
            ));
        } else {
            cur.push(v[i]);
        }
        i = i + 1;
        assert(split_hash(v@) =~~= frag_views(frags@) + seq![cur@ + split_hash(v@.skip(i as int))[0]]
            + split_hash(v@.skip(i as int)).drop_first());
    }
    proof {
        assert(v@.skip(n as int) =~= Seq::<char>::empty());
    }
    frags.push(cur);
    proof {
        assert(frag_views(frags@) =~~= frag_views(frags@.drop_last()).push(frags@.last()@));
        assert(frag_views(frags@) =~~= split_hash(v@));
    }
    frags
}

/// Executable equality of two character vectors.
fn chars_eq(a: &Vec<char>, b: &Vec<char>) -> (r: bool)
    ensures
        r == (a@ == b@),
{
    if a.len() != b.len() {
        return false;
    }
    let mut i: usize = 0;
    while i < a.len()
        invariant
            i <= a@.len(),
            a@.len() == b@.len(),
            forall|j: int| 0 <= j < i ==> a@[j] == b@[j],
        decreases a@.len() - i,
    {
        if a[i] != b[i] {
            return false;
        }
        i = i + 1;
    }
    proof {
        assert(a@ =~= b@);
    }
    true
}

/// Executable membership test among fragments.
fn contains_frag(fr: &Vec<Vec<char>>, x: &Vec<char>) -> (r: bool)
    ensures
        r == frag_views(fr@).contains(x@),
{
    let mut i: usize = 0;
    while i < fr.len()
        invariant
            i <= fr@.len(),
            forall|j: int| 0 <= j < i ==> frag_views(fr@)[j] != x@,
        decreases fr@.len() - i,
    {
        if chars_eq(&fr[i], x) {
            assert(frag_views(fr@)[i as int] == x@);
            return true;
        }
        i = i + 1;
    }
    false
}

/// Trim, lowercase, drop empties and deduplicate the fragments of
/// `frags` from position `from` on.
fn canonize_frags(frags: &Vec<Vec<char>>, from: usize) -> (r: Vec<String>)
    requires
        from <= frags@.len(),
    ensures
        r.deep_view() == dedup_frags(clean_frags(frag_views(frags@).skip(from as int))),
{
    let ghost fv = frag_views(frags@).skip(from as int);
    let mut cleaned: Vec<Vec<char>> = Vec::new();
    let mut i: usize = from;
    while i < frags.len()
        invariant
            from <= i <= frags@.len(),
            fv == frag_views(frags@).skip(from as int),
            frag_views(cleaned@) == clean_frags(frag_views(frags@).subrange(
                from as int,
                i as int,
            )),
        decreases frags@.len() - i,
    {
        proof {
            assert(frag_views(frags@).subrange(from as int, i as int + 1).drop_last()
                =~= frag_views(frags@).subrange(from as int, i as int));
            assert(frag_views(frags@).subrange(from as int, i as int + 1).last()
                == frags@[i as int]@);
        }
        let x = lower_chars(&trim_chars(&frags[i]));
        if x.len() > 0 {
            cleaned.push(x);
            assert(frag_views(cleaned@) =~= frag_views(cleaned@.drop_last()).push(
                cleaned@.last()@,
            ));
        }
        i = i + 1;
    }
    proof {
        assert(frag_views(frags@).subrange(from as int, frags@.len() as int) =~= fv);
    }
    let mut out: Vec<Vec<char>> = Vec::new();
    let mut i: usize = 0;
    while i < cleaned.len()
        invariant
            i <= cleaned@.len(),
            frag_views(out@) == dedup_frags(frag_views(cleaned@).take(i as int)),
        decreases cleaned@.len() - i,
    {
        proof {
            assert(frag_views(cleaned@).take(i as int + 1).drop_last() =~= frag_views(
                cleaned@,
            ).take(i as int));
            assert(frag_views(cleaned@).take(i as int + 1).last() == cleaned@[i as int]@);
        }
        if !contains_frag(&out, &cleaned[i]) {
            out.push(cleaned[i].clone());
            assert(frag_views(out@) =~= frag_views(out@.drop_last()).push(out@.last()@));
        }
        i = i + 1;
    }
    proof {
        assert(frag_views(cleaned@).take(cleaned@.len() as int) =~= frag_views(cleaned@));
    }
    let mut strs: Vec<String> = Vec::new();
    let mut i: usize = 0;
    while i < out.len()
        invariant
            i <= out@.len(),
            strs.deep_view() =~= frag_views(out@).take(i as int),
        decreases out@.len() - i,
    {
        let ghost pv = strs@;
        let ghost pdv = strs.deep_view();
        strs.push(chars_to_string(&out[i]));
        proof {
            assert(pdv.len() == pv.len());
            assert forall|j: int| 0 <= j < pv.len() implies strs@[j].deep_view() == frag_views(
                out@,
            )[j] by {
                assert(strs@[j] == pv[j]);
                assert(pdv[j] == pv[j].deep_view());
            }
            assert(strs@[pv.len() as int]@ == out@[i as int]@);
            assert(strs.deep_view() =~~= frag_views(out@).take(i as int + 1));
        }
        i = i + 1;
    }
    proof {
        assert(frag_views(out@).take(out@.len() as int) =~= frag_views(out@));
    }
    strs
}

/// Turn free-text tag input into the canonical tag list: fragments
/// between `#` delimiters, trimmed, lowercased, with empty fragments and
/// case-insensitive repetitions dropped, in first-seen order.
pub fn normalize(raw: &str) -> (r: Vec<String>)
    ensures
        r.deep_view() == normalize_spec(raw@),
{
    let chars = string_to_chars(raw);
    let frags = split_hash_exec(&chars);
    let r = canonize_frags(&frags, 0);
    proof {
        assert(frag_views(frags@).skip(0) =~= frag_views(frags@));
    }
    r
}

/// Split combined `Name #tag` input: the text before the first `#` is
/// the task name, trimmed; what follows is normalized as tag input.
pub fn parse_name_tags(raw: &str) -> (r: (String, Vec<String>))
    ensures
        r.0@ == trim_spec(split_hash(raw@)[0]),
        r.1.deep_view() == dedup_frags(clean_frags(split_hash(raw@).drop_first())),
{
    let chars = string_to_chars(raw);
    let frags = split_hash_exec(&chars);
    proof {
        lemma_split_hash_nonempty(raw@);
    }
    let name = chars_to_string(&trim_chars(&frags[0]));
    let tags = canonize_frags(&frags, 1);
    proof {
        assert(frag_views(frags@).skip(1) =~= frag_views(frags@).drop_first());
        assert(frag_views(frags@)[0] == frags@[0]@);
    }
    (name, tags)
}

pub proof fn lemma_render_push(ts: Seq<Seq<char>>, t: Seq<char>)
    requires
        ts.len() >= 1,
    ensures
        render_spec(ts.push(t)) == render_spec(ts) + seq![' ', '#'] + t,
    decreases ts.len(),
{
    if ts.len() == 1 {
        assert(ts.push(t)[0] == ts[0]);
        assert(ts.push(t).drop_first() =~= seq![t]);
        assert(render_spec(seq![t]) == t);
        assert(render_spec(ts.push(t)) =~= ts[0] + seq![' ', '#'] + t);
    } else {
        assert(ts.push(t).drop_first() =~= ts.drop_first().push(t));
        lemma_render_push(ts.drop_first(), t);
        assert(render_spec(ts.push(t)) =~= render_spec(ts) + seq![' ', '#'] + t);
    }
}

/// Render a tag list for storage: the tags joined with `" #"`.
pub fn render(tags: &Vec<String>) -> (r: String)
    ensures
        r@ == render_spec(tags.deep_view()),
{
    if tags.len() == 0 {
        return String::new();
    }
    let mut out: String = tags[0].clone();
    let mut i: usize = 1;
    while i < tags.len()
        invariant
            1 <= i <= tags@.len(),
            out@ == render_spec(tags.deep_view().take(i as int)),
        decreases tags@.len() - i,
    {
        proof {
            reveal_strlit(" #");
            assert(" #"@ =~= seq![' ', '#']);
            assert(tags.deep_view().take(i as int).len() == i);
            lemma_render_push(tags.deep_view().take(i as int), tags.deep_view()[i as int]);
            assert(tags.deep_view().take(i as int).push(tags.deep_view()[i as int]) =~= tags.deep_view().take(
                i as int + 1,
            ));
        }
        out.append(" #");
        out.append(tags[i].as_str());
        i = i + 1;
    }
    proof {
        assert(tags.deep_view().take(tags@.len() as int) =~= tags.deep_view());
        assert(tags.deep_view().take(1).len() == 1);
        assert(render_spec(tags.deep_view().take(1)) == tags.deep_view()[0]);
    }
    out
}


/// `t` holds no `#` delimiter.
pub open spec fn no_hash(t: Seq<char>) -> bool {
    forall|j: int| 0 <= j < t.len() ==> t[j] != '#'
}

/// A canonical tag: nonempty, free of `#`, fixed under trimming and under
/// lowercasing.
pub open spec fn canon_tag(t: Seq<char>) -> bool {
    &&& t.len() > 0
    &&& no_hash(t)
    &&& trim_spec(t) == t
    &&& lower_seq(t) == t
}

pub proof fn lemma_lower_char_props(c: char)
    ensures
        lower_char(lower_char(c)) == lower_char(c),
        is_ws(lower_char(c)) == is_ws(c),
        (lower_char(c) == '#') == (c == '#'),
{
    if 'A' <= c && c <= 'Z' {
        let d = lower_char(c);
        assert(d as u32 == c as u32 + 32);
        assert('a' <= d && d <= 'z');
        assert(!is_ws(d));
        assert(!is_ws(c));
        assert(d != '#');
        assert(c != '#');
    }
}


pub proof fn lemma_lower_seq_idem(x: Seq<char>)
    ensures
        lower_seq(lower_seq(x)) == x ==> lower_seq(x) == x,
        lower_seq(lower_seq(x)) == lower_seq(x),
{
    assert forall|j: int| 0 <= j < x.len() implies lower_char(lower_char(x[j])) == lower_char(
        x[j],
    ) by {
        lemma_lower_char_props(x[j]);
    }
    assert(lower_seq(lower_seq(x)) =~= lower_seq(x));
}

pub proof fn lemma_trim_front_len(s: Seq<char>)
    ensures
        trim_front(s).len() <= s.len(),
    decreases s.len(),
{
    if s.len() > 0 && is_ws(s[0]) {
        lemma_trim_front_len(s.drop_first());
    }
}

pub proof fn lemma_trim_back_len(s: Seq<char>)
    ensures
        trim_back(s).len() <= s.len(),
    decreases s.len(),
{
    if s.len() > 0 && is_ws(s.last()) {
        lemma_trim_back_len(s.drop_last());
    }
}

pub proof fn lemma_trim_front_first(s: Seq<char>)
    ensures
        trim_front(s).len() > 0 ==> !is_ws(trim_front(s)[0]),
    decreases s.len(),
{
    if s.len() > 0 && is_ws(s[0]) {
        lemma_trim_front_first(s.drop_first());
    }
}

pub proof fn lemma_trim_back_last(s: Seq<char>)
    ensures
        trim_back(s).len() > 0 ==> !is_ws(trim_back(s).last()),
    decreases s.len(),
{
    if s.len() > 0 && is_ws(s.last()) {
        lemma_trim_back_last(s.drop_last());
    }
}

pub proof fn lemma_trim_back_prefix(s: Seq<char>)
    ensures
        trim_back(s) == s.take(trim_back(s).len() as int),
    decreases s.len(),
{
    if s.len() > 0 && is_ws(s.last()) {
        lemma_trim_back_prefix(s.drop_last());
        lemma_trim_back_len(s.drop_last());
        assert(s.drop_last().take(trim_back(s).len() as int) =~= s.take(
            trim_back(s).len() as int,
        ));
    } else {
        assert(s.take(s.len() as int) =~= s);
    }
}

pub proof fn lemma_trim_front_no_hash(s: Seq<char>)
    requires
        no_hash(s),
    ensures
        no_hash(trim_front(s)),
    decreases s.len(),
{
    if s.len() > 0 && is_ws(s[0]) {
        assert(no_hash(s.drop_first()));
        lemma_trim_front_no_hash(s.drop_first());
    }
}

pub proof fn lemma_trim_back_no_hash(s: Seq<char>)
    requires
        no_hash(s),
    ensures
        no_hash(trim_back(s)),
    decreases s.len(),
{
    if s.len() > 0 && is_ws(s.last()) {
        assert(no_hash(s.drop_last()));
        lemma_trim_back_no_hash(s.drop_last());
    }
}

/// The trimmed, lowercased form of one split fragment.
pub open spec fn clean_elt(f: Seq<char>) -> Seq<char> {
    lower_seq(trim_spec(f))
}

pub proof fn lemma_clean_elt_props(f: Seq<char>)
    requires
        no_hash(f),
    ensures
        clean_elt(f).len() > 0 ==> canon_tag(clean_elt(f)),
{
    let w = trim_spec(f);
    let x = clean_elt(f);
    if x.len() > 0 {
        lemma_trim_front_no_hash(f);
        lemma_trim_back_no_hash(trim_front(f));
        assert(no_hash(w));
        assert forall|j: int| 0 <= j < x.len() implies x[j] != '#' by {
            lemma_lower_char_props(w[j]);
        }
        lemma_trim_front_first(f);
        lemma_trim_back_prefix(trim_front(f));
        let u = trim_front(f);
        lemma_trim_back_len(u);
        assert(x.len() == w.len());
        assert(w == u.take(w.len() as int));
        assert(u.take(w.len() as int)[0] == u[0]);
        assert(w[0] == u[0]);
        assert(!is_ws(w[0]));
        lemma_trim_back_last(trim_front(f));
        assert(!is_ws(w.last()));
        lemma_lower_char_props(w[0]);
        lemma_lower_char_props(w.last());
        assert(x[0] == lower_char(w[0]));
        assert(x.last() == lower_char(w.last()));
        assert(!is_ws(x[0]) && !is_ws(x.last()));
        assert(trim_front(x) == x);
        assert(trim_back(x) == x);
        lemma_lower_seq_idem(w);
        assert(lower_seq(x) == x);
    }
}

pub proof fn lemma_split_no_hash_frags(s: Seq<char>)
    ensures
        forall|i: int| 0 <= i < split_hash(s).len() ==> no_hash(#[trigger] split_hash(s)[i]),
    decreases s.len(),
{
    if s.len() == 0 {
        assert(no_hash(split_hash(s)[0]));
    } else if s[0] == '#' {
        lemma_split_no_hash_frags(s.drop_first());
        let rest = split_hash(s.drop_first());
        assert forall|i: int| 0 <= i < split_hash(s).len() implies no_hash(
            #[trigger] split_hash(s)[i],
        ) by {
            if i == 0 {
                assert(no_hash(Seq::<char>::empty()));
            } else {
                assert(split_hash(s)[i] == rest[i - 1]);
            }
        }
    } else {
        lemma_split_no_hash_frags(s.drop_first());
        lemma_split_hash_nonempty(s.drop_first());
        let rest = split_hash(s.drop_first());
        assert forall|i: int| 0 <= i < split_hash(s).len() implies no_hash(
            #[trigger] split_hash(s)[i],
        ) by {
            if i == 0 {
                assert(no_hash(rest[0]));
                assert(split_hash(s)[0] == seq![s[0]] + rest[0]);
                assert(no_hash(seq![s[0]] + rest[0]));
            } else {
                assert(split_hash(s)[i] == rest[i]);
            }
        }
    }
}

pub proof fn lemma_clean_frags_canon(fr: Seq<Seq<char>>)
    requires
        forall|i: int| 0 <= i < fr.len() ==> no_hash(#[trigger] fr[i]),
    ensures
        forall|i: int| 0 <= i < clean_frags(fr).len() ==> canon_tag(#[trigger] clean_frags(fr)[i]),
    decreases fr.len(),
{
    if fr.len() > 0 {
        assert(forall|i: int| 0 <= i < fr.drop_last().len() ==> no_hash(
            #[trigger] fr.drop_last()[i],
        ));
        lemma_clean_frags_canon(fr.drop_last());
        assert(no_hash(fr[fr.len() - 1]));
        lemma_clean_elt_props(fr.last());
        let rest = clean_frags(fr.drop_last());
        let x = clean_elt(fr.last());
        assert forall|i: int| 0 <= i < clean_frags(fr).len() implies canon_tag(
            #[trigger] clean_frags(fr)[i],
        ) by {
            if x.len() == 0 {
                assert(clean_frags(fr)[i] == rest[i]);
            } else if i < rest.len() {
                assert(clean_frags(fr)[i] == rest[i]);
            } else {
                assert(clean_frags(fr)[i] == x);
            }
        }
    }
}

pub proof fn lemma_dedup_distinct(fr: Seq<Seq<char>>)
    ensures
        forall|i: int, j: int|
            0 <= i < j < dedup_frags(fr).len() ==> dedup_frags(fr)[i] != dedup_frags(fr)[j],
    decreases fr.len(),
{
    if fr.len() > 0 {
        lemma_dedup_distinct(fr.drop_last());
        let rest = dedup_frags(fr.drop_last());
        let d = dedup_frags(fr);
        if !rest.contains(fr.last()) {
            assert forall|i: int, j: int| 0 <= i < j < d.len() implies d[i] != d[j] by {
                if j < rest.len() {
                    assert(d[i] == rest[i] && d[j] == rest[j]);
                } else {
                    assert(d[j] == fr.last());
                    assert(d[i] == rest[i]);
                    if rest[i] == fr.last() {
                        assert(rest.contains(fr.last()));
                    }
                }
            }
        }
    }
}

pub proof fn lemma_dedup_elts(fr: Seq<Seq<char>>)
    ensures
        forall|i: int|
            0 <= i < dedup_frags(fr).len() ==> fr.contains(#[trigger] dedup_frags(fr)[i]),
    decreases fr.len(),
{
    if fr.len() > 0 {
        lemma_dedup_elts(fr.drop_last());
        assert forall|i: int| 0 <= i < dedup_frags(fr).len() implies fr.contains(
            #[trigger] dedup_frags(fr)[i],
        ) by {
            let d = dedup_frags(fr);
            if i < dedup_frags(fr.drop_last()).len() {
                let k = choose|k: int|
                    0 <= k < fr.drop_last().len() && fr.drop_last()[k] == dedup_frags(
                        fr.drop_last(),
                    )[i];
                assert(fr[k] == d[i]);
            } else {
                assert(d[i] == fr.last());
                assert(fr[fr.len() - 1] == fr.last());
            }
        }
    }
}

pub proof fn lemma_dedup_of_distinct(fr: Seq<Seq<char>>)
    requires
        forall|i: int, j: int| 0 <= i < j < fr.len() ==> fr[i] != fr[j],
    ensures
        dedup_frags(fr) == fr,
    decreases fr.len(),
{
    if fr.len() > 0 {
        lemma_dedup_of_distinct(fr.drop_last());
        if fr.drop_last().contains(fr.last()) {
            let k = choose|k: int|
                0 <= k < fr.drop_last().len() && fr.drop_last()[k] == fr.last();
            assert(fr[k] == fr[fr.len() - 1]);
            assert(false);
        }
        assert(fr.drop_last().push(fr.last()) =~= fr);
    }
}

/// Every normalized tag list is canonical: each tag nonempty, free of
/// `#`, trimmed and lowercase, and no two tags equal (so, the tags being
/// lowercase, no two equal under case folding either).
pub proof fn lemma_normalize_canonical(s: Seq<char>)
    ensures
        forall|i: int|
            0 <= i < normalize_spec(s).len() ==> canon_tag(#[trigger] normalize_spec(s)[i]),
        forall|i: int, j: int|
            0 <= i < j < normalize_spec(s).len() ==> normalize_spec(s)[i] != normalize_spec(s)[j],
{
    let cl = clean_frags(split_hash(s));
    lemma_split_no_hash_frags(s);
    lemma_clean_frags_canon(split_hash(s));
    lemma_dedup_distinct(cl);
    lemma_dedup_elts(cl);
    assert forall|i: int| 0 <= i < normalize_spec(s).len() implies canon_tag(
        #[trigger] normalize_spec(s)[i],
    ) by {
        let k = choose|k: int| 0 <= k < cl.len() && cl[k] == normalize_spec(s)[i];
    }
}


pub proof fn lemma_split_of_no_hash(u: Seq<char>)
    requires
        no_hash(u),
    ensures
        split_hash(u) == seq![u],
    decreases u.len(),
{
    if u.len() > 0 {
        assert(u[0] != '#');
        assert(no_hash(u.drop_first()));
        lemma_split_of_no_hash(u.drop_first());
        assert(seq![u[0]] + u.drop_first() =~= u);
        assert(split_hash(u) =~~= seq![u]);
    } else {
        assert(u =~= Seq::<char>::empty());
        assert(split_hash(u) =~~= seq![u]);
    }
}

pub proof fn lemma_split_prefix(a: Seq<char>, b: Seq<char>)
    requires
        no_hash(a),
    ensures
        split_hash(a + seq!['#'] + b) == seq![a] + split_hash(b),
    decreases a.len(),
{
    let s = a + seq!['#'] + b;
    if a.len() == 0 {
        assert(s[0] == '#');
        assert(s.drop_first() =~= b);
        assert(a =~= Seq::<char>::empty());
        assert(seq![Seq::<char>::empty()] + split_hash(b) =~~= seq![a] + split_hash(b));
    } else {
        assert(s[0] == a[0]);
        assert(a[0] != '#');
        assert(no_hash(a.drop_first()));
        assert(s.drop_first() =~= a.drop_first() + seq!['#'] + b);
        lemma_split_prefix(a.drop_first(), b);
        let rest = split_hash(s.drop_first());
        assert(rest == seq![a.drop_first()] + split_hash(b));
        assert(rest[0] == a.drop_first());
        assert(seq![s[0]] + rest[0] =~= a);
        assert(rest.drop_first() =~= split_hash(b));
        assert(split_hash(s) =~= seq![a] + split_hash(b));
    }
}

/// Each tag with one space appended: the shape the render delimiter
/// leaves on every tag but the last when the text is split again.
pub open spec fn space_padded(ts: Seq<Seq<char>>) -> Seq<Seq<char>> {
    ts.map_values(|t: Seq<char>| t + seq![' '])
}

pub proof fn lemma_split_render(ts: Seq<Seq<char>>)
    requires
        ts.len() >= 1,
        forall|i: int| 0 <= i < ts.len() ==> no_hash(#[trigger] ts[i]),
    ensures
        split_hash(render_spec(ts)) == space_padded(ts.drop_last()).push(ts.last()),
    decreases ts.len(),
{
    if ts.len() == 1 {
        assert(render_spec(ts) == ts[0]);
        assert(no_hash(ts[0]));
        lemma_split_of_no_hash(ts[0]);
        assert(split_hash(render_spec(ts)) =~= space_padded(ts.drop_last()).push(ts.last()));
    } else {
        let rest = ts.drop_first();
        assert(forall|i: int| 0 <= i < rest.len() ==> no_hash(#[trigger] rest[i]));
        lemma_split_render(rest);
        let a = ts[0] + seq![' '];
        assert(no_hash(ts[0]));
        assert(no_hash(a));
        assert(render_spec(ts) =~= a + seq!['#'] + render_spec(rest));
        lemma_split_prefix(a, render_spec(rest));
        assert(split_hash(render_spec(ts)) == seq![a] + split_hash(render_spec(rest)));
        assert(split_hash(render_spec(rest)) == space_padded(rest.drop_last()).push(rest.last()));
        assert(seq![a] + space_padded(rest.drop_last()).push(rest.last()) =~= space_padded(
            ts.drop_last(),
        ).push(ts.last()));
    }
}

pub proof fn lemma_clean_elt_canon(x: Seq<char>)
    requires
        canon_tag(x),
    ensures
        clean_elt(x) == x,
{
}

pub proof fn lemma_clean_elt_padded(x: Seq<char>)
    requires
        canon_tag(x),
    ensures
        clean_elt(x + seq![' ']) == x,
{
    let p = x + seq![' '];
    assert(p[0] == x[0]);
    lemma_canon_ends(x);
    assert(!is_ws(p[0]));
    assert(trim_front(p) == p);
    assert(is_ws(p.last()));
    assert(p.drop_last() =~= x);
    assert(trim_back(p) == trim_back(x));
    assert(trim_back(x) == x);
    assert(trim_spec(p) == x);
}

pub proof fn lemma_canon_ends(x: Seq<char>)
    requires
        canon_tag(x),
    ensures
        !is_ws(x[0]),
        !is_ws(x.last()),
{
    let u = trim_front(x);
    lemma_trim_front_len(x);
    lemma_trim_back_len(u);
    if is_ws(x[0]) {
        lemma_trim_front_len(x.drop_first());
        assert(trim_front(x) == trim_front(x.drop_first()));
        assert(trim_spec(x).len() < x.len());
        assert(false);
    }
    assert(trim_front(x) == x);
    if is_ws(x.last()) {
        lemma_trim_back_len(x.drop_last());
        assert(trim_back(x) == trim_back(x.drop_last()));
        assert(trim_spec(x).len() < x.len());
        assert(false);
    }
}

pub proof fn lemma_clean_space_padded(ts: Seq<Seq<char>>)
    requires
        forall|i: int| 0 <= i < ts.len() ==> canon_tag(#[trigger] ts[i]),
    ensures
        clean_frags(space_padded(ts)) == ts,
    decreases ts.len(),
{
    if ts.len() == 0 {
        assert(space_padded(ts) =~= Seq::<Seq<char>>::empty());
        assert(clean_frags(space_padded(ts)) =~= ts);
    } else {
        assert(forall|i: int| 0 <= i < ts.drop_last().len() ==> canon_tag(
            #[trigger] ts.drop_last()[i],
        ));
        lemma_clean_space_padded(ts.drop_last());
        let sp = space_padded(ts);
        assert(sp.len() == ts.len());
        assert(sp.drop_last() =~= space_padded(ts.drop_last()));
        assert(sp.last() == ts.last() + seq![' ']);
        assert(canon_tag(ts.last()));
        lemma_clean_elt_padded(ts.last());
        assert(clean_elt(sp.last()) == ts.last());
        assert(ts.last().len() > 0);
        assert(clean_frags(sp) == clean_frags(sp.drop_last()).push(ts.last()));
        assert(clean_frags(sp.drop_last()) == ts.drop_last());
        assert(ts.drop_last().push(ts.last()) =~= ts);
    }
}

/// Law: a canonical, duplicate-free tag list survives a round trip
/// through its stored text form: normalizing its rendering gives the
/// list back.
pub proof fn lemma_normalize_render_canonical(n: Seq<Seq<char>>)
    requires
        forall|i: int| 0 <= i < n.len() ==> canon_tag(#[trigger] n[i]),
        forall|i: int, j: int| 0 <= i < j < n.len() ==> n[i] != n[j],
    ensures
        normalize_spec(render_spec(n)) == n,
{
    if n.len() == 0 {
        assert(render_spec(n) == Seq::<char>::empty());
        let sp = split_hash(Seq::<char>::empty());
        assert(sp =~= seq![Seq::<char>::empty()]);
        assert(clean_elt(Seq::<char>::empty()).len() == 0);
        assert(sp.drop_last() =~= Seq::<Seq<char>>::empty());
        assert(clean_frags(Seq::<Seq<char>>::empty()) == Seq::<Seq<char>>::empty());
        assert(clean_frags(sp) =~= Seq::<Seq<char>>::empty());
        assert(normalize_spec(render_spec(n)) =~= n);
    } else {
        lemma_split_render(n);
        let sp = split_hash(render_spec(n));
        assert(sp == space_padded(n.drop_last()).push(n.last()));
        assert(forall|i: int| 0 <= i < n.drop_last().len() ==> canon_tag(
            #[trigger] n.drop_last()[i],
        ));
        lemma_clean_space_padded(n.drop_last());
        assert(sp.drop_last() =~= space_padded(n.drop_last()));
        assert(sp.last() == n.last());
        assert(canon_tag(n.last()));
        lemma_clean_elt_canon(n.last());
        assert(clean_frags(sp) == clean_frags(sp.drop_last()).push(n.last()));
        assert(clean_frags(sp) == n.drop_last().push(n.last()));
        assert(n.drop_last().push(n.last()) =~= n);
        assert(clean_frags(sp) == n);
        lemma_dedup_of_distinct(n);
    }
}

/// Law: normalization is idempotent. Rendering a normalized tag list back
/// to its stored text and normalizing that text again gives the same
/// list, for every raw input.
pub proof fn lemma_normalize_idempotent(s: Seq<char>)
    ensures
        normalize_spec(render_spec(normalize_spec(s))) == normalize_spec(s),
{
    lemma_normalize_canonical(s);
    lemma_normalize_render_canonical(normalize_spec(s));
}


/// Whether one tag text is canonical: nonempty, free of `#`, fixed under
/// trimming and under lowercasing.
pub fn canon_tag_check(s: &str) -> (r: bool)
    ensures
        r == canon_tag(s@),
{
    let chars = string_to_chars(s);
    if chars.len() == 0 {
        return false;
    }
    let mut i: usize = 0;
    while i < chars.len()
        invariant
            i <= chars@.len(),
            chars@ == s@,
            forall|j: int| 0 <= j < i ==> s@[j] != '#',
        decreases chars@.len() - i,
    {
        if chars[i] == '#' {
            assert(!no_hash(s@));
            return false;
        }
        i = i + 1;
    }
    let tr = trim_chars(&chars);
    if !chars_eq(&tr, &chars) {
        return false;
    }
    let lo = lower_chars(&chars);
    if !chars_eq(&lo, &chars) {
        return false;
    }
    true
}

} // verus!

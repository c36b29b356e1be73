use vstd::prelude::*;
use vstd::utf8::is_ascii_chars;

verus! {

// ---------------------------------------------------------------------------
// Character classes
// ---------------------------------------------------------------------------

/// `char::is_alphanumeric` on a character outside ASCII.
pub uninterp spec fn alphanumeric_beyond_ascii(c: char) -> bool;

/// `char::is_whitespace` on a character outside ASCII.
pub uninterp spec fn whitespace_beyond_ascii(c: char) -> bool;

/// `str::to_lowercase` on a string that holds a character outside ASCII.
pub uninterp spec fn lowercase_beyond_ascii(s: Seq<char>) -> Seq<char>;

pub open spec fn is_ascii_char(c: char) -> bool {
    (c as u32) < 128
}

pub open spec fn ascii_alphanumeric(c: char) -> bool {
    let n = c as u32;
    (48 <= n && n <= 57) || (65 <= n && n <= 90) || (97 <= n && n <= 122)
}

pub open spec fn ascii_whitespace(c: char) -> bool {
    let n = c as u32;
    n == 32 || (9 <= n && n <= 13)
}

pub open spec fn ascii_uppercase(c: char) -> bool {
    let n = c as u32;
    65 <= n && n <= 90
}

pub open spec fn ascii_lower(c: char) -> char {
    if ascii_uppercase(c) {
        ((c as u32) + 32) as char
    } else {
        c
    }
}

/// Whether `char::is_alphanumeric` holds of `c`.
pub open spec fn alphanumeric(c: char) -> bool {
    if is_ascii_char(c) {
        ascii_alphanumeric(c)
    } else {
        alphanumeric_beyond_ascii(c)
    }
}

/// Whether `char::is_whitespace` holds of `c`.
pub open spec fn whitespace(c: char) -> bool {
    if is_ascii_char(c) {
        ascii_whitespace(c)
    } else {
        whitespace_beyond_ascii(c)
    }
}

/// What `str::to_lowercase` makes of `s`.
pub open spec fn lowercase(s: Seq<char>) -> Seq<char> {
    if is_ascii_chars(s) {
        s.map_values(|c: char| ascii_lower(c))
    } else {
        lowercase_beyond_ascii(s)
    }
}

/// Relies on `char::is_alphanumeric`: on ASCII it holds of exactly the
/// digits and the Latin letters.
#[verifier::external_body]
fn is_alphanumeric(c: char) -> (r: bool)
    ensures
        r == (if is_ascii_char(c) {
            ascii_alphanumeric(c)
        } else {
            alphanumeric_beyond_ascii(c)
        }),
{
    c.is_alphanumeric()
}

/// Relies on `char::is_whitespace`: on ASCII it holds of exactly the space
/// and the controls from tab to carriage return.
#[verifier::external_body]
pub(crate) fn is_whitespace(c: char) -> (r: bool)
    ensures
        r == (if is_ascii_char(c) {
            ascii_whitespace(c)
        } else {
            whitespace_beyond_ascii(c)
        }),
{
    c.is_whitespace()
}

/// Relies on `str::to_lowercase`: the result depends on the characters
/// alone, and ASCII text has each of `A` to `Z` lowered and every other
/// character kept.
#[verifier::external_body]
fn to_lowercase(s: &str) -> (r: String)
    ensures
        r@ == (if is_ascii_chars(s@) {
            s@.map_values(|c: char| ascii_lower(c))
        } else {
            lowercase_beyond_ascii(s@)
        }),
{
    s.to_lowercase()
}

/// Relies on `String::push`: appends one character.
#[verifier::external_body]
pub(crate) fn push_char(s: &mut String, c: char)
    ensures
        final(s)@ == old(s)@.push(c),
{
    s.push(c)
}

// ---------------------------------------------------------------------------
// Normal form
// ---------------------------------------------------------------------------

/// The characters that survive normalization: alphanumeric or whitespace.
pub open spec fn retained(c: char) -> bool {
    alphanumeric(c) || whitespace(c)
}

/// `t` with every character dropped that is neither alphanumeric nor
/// whitespace.
pub open spec fn keep_retained(t: Seq<char>) -> Seq<char>
    decreases t.len(),
{
    if t.len() == 0 {
        Seq::empty()
    } else {
        let p = keep_retained(t.drop_last());
        if retained(t.last()) {
            p.push(t.last())
        } else {
            p
        }
    }
}

/// The words of `t` joined by single spaces: leading and trailing whitespace
/// dropped, each run of whitespace between two words replaced by one space.
pub open spec fn collapse_whitespace(t: Seq<char>) -> Seq<char>
    decreases t.len(),
{
    if t.len() == 0 {
        Seq::empty()
    } else {
        let p = collapse_whitespace(t.drop_last());
        let c = t.last();
        if whitespace(c) {
            p
        } else if t.len() >= 2 && whitespace(t[t.len() - 2]) && p.len() > 0 {
            p.push(' ').push(c)
        } else {
            p.push(c)
        }
    }
}

/// The normal form of `s`: lowercased, only alphanumeric and whitespace
/// characters kept, whitespace collapsed to single spaces and trimmed.
pub open spec fn normalized(s: Seq<char>) -> Seq<char> {
    collapse_whitespace(keep_retained(lowercase(s)))
}

fn retained_chars(t: &str) -> (r: Vec<char>)
    ensures
        r@ == keep_retained(t@),
{
    let mut out: Vec<char> = Vec::new();
    for c in it: t.chars()
        invariant
            it.seq() == t@,
            out@ == keep_retained(t@.take(it.index() as int)),
    {
        let ghost i = it.index() as int;
        proof {
            assert(t@.take(i + 1).drop_last() =~= t@.take(i));
        }
        if is_alphanumeric(c) || is_whitespace(c) {
            out.push(c);
        }
    }
    assert(t@.take(t@.len() as int) =~= t@);
    out
}

fn collapsed(t: &Vec<char>) -> (r: String)
    ensures
        r@ == collapse_whitespace(t@),
{
    let mut out = String::new();
    let mut prev_space = false;
    let mut started = false;
    let mut i: usize = 0;
    while i < t.len()
        invariant
            i <= t@.len(),
            out@ == collapse_whitespace(t@.take(i as int)),
            prev_space == (i > 0 && whitespace(t@[i - 1])),
            started == (out@.len() > 0),
        decreases t@.len() - i,
    {
        let c = t[i];
        proof {
            assert(t@.take(i + 1).drop_last() =~= t@.take(i as int));
        }
        let space = is_whitespace(c);
        if !space {
            if prev_space && started {
                push_char(&mut out, ' ');
            }
            push_char(&mut out, c);
            started = true;
        }
        prev_space = space;
        i = i + 1;
    }
    assert(t@.take(t@.len() as int) =~= t@);
    out
}

/// Brings `text` to the normal form in which all comparisons are made:
/// lowercase, alphanumeric and whitespace characters only, words separated by
/// single spaces, no leading or trailing whitespace.
pub fn normalize_text(text: &str) -> (r: String)
    ensures
        r@ == normalized(text@),
{
    let lowered = to_lowercase(text);
    let kept = retained_chars(lowered.as_str());
    collapsed(&kept)
}

// ---------------------------------------------------------------------------
// Laws of the normal form
// ---------------------------------------------------------------------------

proof fn lemma_keep_retained_preserves(t: Seq<char>, p: spec_fn(char) -> bool)
    requires
        forall|i: int| 0 <= i < t.len() ==> #[trigger] p(t[i]),
    ensures
        forall|i: int|
            0 <= i < keep_retained(t).len() ==> #[trigger] p(keep_retained(t)[i]) && retained(
                keep_retained(t)[i],
            ),
    decreases t.len(),
{
    if t.len() > 0 {
        lemma_keep_retained_preserves(t.drop_last(), p);
        let q = keep_retained(t.drop_last());
        let u = keep_retained(t);
        assert(p(t[t.len() - 1]));
        assert forall|i: int| 0 <= i < u.len() implies #[trigger] p(u[i]) && retained(u[i]) by {
            if i < q.len() {
                assert(u[i] == q[i]);
                assert(p(q[i]));
            }
        }
    }
}

proof fn lemma_keep_retained_identity(t: Seq<char>)
    requires
        forall|i: int| 0 <= i < t.len() ==> #[trigger] retained(t[i]),
    ensures
        keep_retained(t) == t,
    decreases t.len(),
{
    if t.len() > 0 {
        lemma_keep_retained_identity(t.drop_last());
        assert(t.drop_last().push(t.last()) =~= t);
    }
}

proof fn lemma_collapse_preserves(t: Seq<char>, p: spec_fn(char) -> bool)
    requires
        forall|i: int| 0 <= i < t.len() ==> #[trigger] p(t[i]),
        p(' '),
    ensures
        forall|i: int|
            0 <= i < collapse_whitespace(t).len() ==> #[trigger] p(collapse_whitespace(t)[i]),
    decreases t.len(),
{
    if t.len() > 0 {
        lemma_collapse_preserves(t.drop_last(), p);
        let q = collapse_whitespace(t.drop_last());
        let u = collapse_whitespace(t);
        assert(p(t[t.len() - 1]));
        assert forall|i: int| 0 <= i < u.len() implies #[trigger] p(u[i]) by {
            if i < q.len() {
                assert(u[i] == q[i]);
                assert(p(q[i]));
            }
        }
    }
}

/// Collapsing whitespace twice is collapsing it once, and a collapsed text
/// never ends in whitespace.
proof fn lemma_collapse_idempotent(t: Seq<char>)
    ensures
        collapse_whitespace(collapse_whitespace(t)) == collapse_whitespace(t),
        collapse_whitespace(t).len() > 0 ==> !whitespace(collapse_whitespace(t).last()),
    decreases t.len(),
{
    if t.len() > 0 {
        lemma_collapse_idempotent(t.drop_last());
        let p = collapse_whitespace(t.drop_last());
        let c = t.last();
        if whitespace(c) {
        } else if t.len() >= 2 && whitespace(t[t.len() - 2]) && p.len() > 0 {
            let u = p.push(' ').push(c);
            assert(u.drop_last() =~= p.push(' '));
            assert(p.push(' ').drop_last() =~= p);
            assert(collapse_whitespace(p.push(' ')) == p);
            assert(u[u.len() - 2] == ' ');
        } else {
            let u = p.push(c);
            assert(u.drop_last() =~= p);
            if p.len() > 0 {
                assert(u[u.len() - 2] == p.last());
            }
        }
    }
}

/// Normalizing a second time changes nothing wherever lowercasing leaves
/// the normal form as it is.
pub proof fn lemma_normalize_idempotent_if_case_stable(s: Seq<char>)
    requires
        lowercase(normalized(s)) == normalized(s),
    ensures
        normalized(normalized(s)) == normalized(s),
{
    let k = keep_retained(lowercase(s));
    let n = collapse_whitespace(k);
    let anything = |c: char| true;
    let kept = |c: char| retained(c);
    lemma_keep_retained_preserves(lowercase(s), anything);
    assert forall|i: int| 0 <= i < k.len() implies #[trigger] kept(k[i]) by {
        assert(anything(k[i]));
    }
    lemma_collapse_preserves(k, kept);
    assert forall|i: int| 0 <= i < n.len() implies #[trigger] retained(n[i]) by {
        assert(kept(n[i]));
    }
    lemma_keep_retained_identity(n);
    lemma_collapse_idempotent(k);
}

/// Normalizing ASCII text a second time changes nothing.
pub proof fn lemma_normalize_idempotent_ascii(s: Seq<char>)
    requires
        is_ascii_chars(s),
    ensures
        normalized(normalized(s)) == normalized(s),
{
    let lower_ascii = |c: char| '\0' <= c <= '\u{7f}' && !ascii_uppercase(c);
    let l = lowercase(s);
    assert forall|i: int| 0 <= i < l.len() implies #[trigger] lower_ascii(l[i]) by {
        assert(s[i] <= '\u{7f}');
    }
    let k = keep_retained(l);
    lemma_keep_retained_preserves(l, lower_ascii);
    let n = collapse_whitespace(k);
    lemma_collapse_preserves(k, lower_ascii);
    assert(is_ascii_chars(n)) by {
        assert forall|i: int| 0 <= i < n.len() implies '\0' <= #[trigger] n[i] <= '\u{7f}' by {
            assert(lower_ascii(n[i]));
        }
    }
    assert(lowercase(n) =~= n) by {
        assert forall|i: int| 0 <= i < n.len() implies #[trigger] lowercase(n)[i] == n[i] by {
            assert(lower_ascii(n[i]));
        }
    }
    lemma_normalize_idempotent_if_case_stable(s);
}

} // verus!

//! Text filters: concatenation, slug generation, truncation,
//! pluralization and default-value substitution.

use vstd::prelude::*;
use unicode_normalization::UnicodeNormalization;
use crate::html::text_or_empty;
use crate::strutil::chars_of;
use crate::strutil::string_of;

verus! {

/// Concatenates `input` then `value`; an absent side is read as empty.
pub fn append(input: Option<String>, value: Option<String>) -> (r: String)
    ensures
        r@ == text_or_empty(input) + text_or_empty(value),
{
    let base = match input {
        Some(s) => s,
        None => String::new(),
    };
    let val = match value {
        Some(s) => s,
        None => String::new(),
    };
    if base.as_str().is_empty() {
        proof {
            assert(base@ + val@ =~= val@);
        }
        return val;
    }
    if val.as_str().is_empty() {
        proof {
            assert(base@ + val@ =~= base@);
        }
        return base;
    }
    base.concat(val.as_str())
}

/// Concatenates `value` then `input`; an absent side is read as empty.
pub fn prepend(input: Option<String>, value: Option<String>) -> (r: String)
    ensures
        r@ == text_or_empty(value) + text_or_empty(input),
{
    let base = match input {
        Some(s) => s,
        None => String::new(),
    };
    let val = match value {
        Some(s) => s,
        None => String::new(),
    };
    if val.as_str().is_empty() {
        proof {
            assert(val@ + base@ =~= base@);
        }
        return base;
    }
    if base.as_str().is_empty() {
        proof {
            assert(val@ + base@ =~= val@);
        }
        return val;
    }
    val.concat(base.as_str())
}

/// Returns `value` unless it is absent or empty, in which case the
/// given default takes its place.
pub fn default_value(value: Option<String>, fallback: String) -> (r: String)
    ensures
        r@ == (if text_or_empty(value).len() > 0 {
            text_or_empty(value)
        } else {
            fallback@
        }),
{
    match value {
        Some(v) => {
            if v.as_str().is_empty() {
                fallback
            } else {
                v
            }
        },
        None => fallback,
    }
}

/// Returns `singular` when the count is exactly one; otherwise the
/// given plural, or `singular` with an `s` appended when none is given.
/// A count of zero takes the plural form.
pub fn pluralize(count: i32, singular: String, plural: Option<String>) -> (r: String)
    ensures
        count == 1 ==> r@ == singular@,
        count != 1 ==> r@ == (match plural {
            Some(p) => p@,
            None => singular@.push('s'),
        }),
{
    if count == 1 {
        singular
    } else {
        match plural {
            Some(p) => p,
            None => {
                let r = singular.concat("s");
                proof {
                    reveal_strlit("s");
                    assert(singular@ + "s"@ =~= singular@.push('s'));
                }
                r
            },
        }
    }
}

/// The truncation of a text to at most `max` characters: a text that
/// fits is kept whole; a longer one keeps its first
/// `max - ellipsis-length` characters (none when the ellipsis alone is
/// longer) and ends in the ellipsis.
pub open spec fn truncate_seq(s: Seq<char>, max: nat, ell: Seq<char>) -> Seq<char> {
    if s.len() <= max {
        s
    } else {
        let keep: int = if ell.len() >= max {
            0
        } else {
            max - ell.len()
        };
        s.subrange(0, keep) + ell
    }
}

/// The maximum length argument, with its default of fifty.
pub open spec fn length_or_default(length: Option<u32>) -> nat {
    match length {
        Some(l) => l as nat,
        None => 50,
    }
}

/// The ellipsis argument, with its default of three dots.
pub open spec fn ellipsis_or_default(e: Option<String>) -> Seq<char> {
    match e {
        Some(s) => s@,
        None => seq!['.', '.', '.'],
    }
}

/// A truncated text never exceeds the requested length, provided the
/// ellipsis itself fits within it.
pub proof fn lemma_truncate_length(s: Seq<char>, max: nat, ell: Seq<char>)
    requires
        s.len() > max,
        ell.len() <= max,
    ensures
        truncate_seq(s, max, ell).len() <= max,
{
}

/// Truncates to at most `length` characters (counting Unicode scalar
/// values, default fifty), appending `truncate_string` (default `...`)
/// when the text had to be cut. Absent text yields the empty string.
pub fn truncate(text: Option<String>, length: Option<u32>, truncate_string: Option<String>) -> (r:
    String)
    ensures
        r@ == truncate_seq(
            text_or_empty(text),
            length_or_default(length),
            ellipsis_or_default(truncate_string),
        ),
{
    let t = match text {
        Some(t) => t,
        None => {
            return String::new();
        },
    };
    let max: usize = match length {
        Some(l) => l as usize,
        None => 50,
    };
    let v = chars_of(t.as_str());
    if v.len() <= max {
        return t;
    }
    let ev: Vec<char> = match truncate_string {
        Some(e) => chars_of(e.as_str()),
        None => {
            let mut d: Vec<char> = Vec::new();
            d.push('.');
            d.push('.');
            d.push('.');
            proof {
                assert(d@ =~= seq!['.', '.', '.']);
            }
            d
        },
    };
    let keep: usize = if ev.len() >= max {
        0
    } else {
        max - ev.len()
    };
    let mut out: Vec<char> = Vec::new();
    let mut i: usize = 0;
    while i < keep
        invariant
            i <= keep,
            keep < v@.len(),
            out@ == v@.subrange(0, i as int),
        decreases keep - i,
    {
        out.push(v[i]);
        i = i + 1;
        proof {
            assert(out@ =~= v@.subrange(0, i as int));
        }
    }
    let mut j: usize = 0;
    while j < ev.len()
        invariant
            j <= ev@.len(),
            keep < v@.len(),
            out@ == v@.subrange(0, keep as int) + ev@.subrange(0, j as int),
        decreases ev@.len() - j,
    {
        out.push(ev[j]);
        j = j + 1;
        proof {
            assert(out@ =~= v@.subrange(0, keep as int) + ev@.subrange(0, j as int));
        }
    }
    proof {
        assert(ev@.subrange(0, ev@.len() as int) =~= ev@);
        assert(out@ == truncate_seq(v@, max as nat, ev@));
    }
    string_of(&out)
}

/// The lowercase mapping of a text, as `str::to_lowercase` computes it.
pub uninterp spec fn lower_of(s: Seq<char>) -> Seq<char>;

/// The canonical decomposition (Unicode NFD) of a text, as the
/// unicode-normalization crate computes it.
pub uninterp spec fn nfd_of(s: Seq<char>) -> Seq<char>;

/// Whether a character is a Unicode combining mark, as the
/// unicode-normalization crate classifies it.
pub uninterp spec fn combining_mark(c: char) -> bool;

/// Relies on str::to_lowercase: the lowercase mapping of the text, a
/// function of the characters alone.
#[verifier::external_body]
fn lowercase(s: &str) -> (r: String)
    ensures
        r@ == lower_of(s@),
{
    s.to_lowercase()
}

/// Relies on UnicodeNormalization::nfd of the unicode-normalization
/// crate: the canonical decomposition of the text, a function of the
/// characters alone.
#[verifier::external_body]
fn nfd(s: &str) -> (r: String)
    ensures
        r@ == nfd_of(s@),
{
    s.nfd().collect()
}

/// Relies on unicode_normalization::char::is_combining_mark: whether
/// the character is a combining mark, a table lookup on the character
/// alone.
#[verifier::external_body]
fn is_mark(c: char) -> (r: bool)
    ensures
        r == combining_mark(c),
{
    unicode_normalization::char::is_combining_mark(c)
}

/// A text with its combining marks dropped.
pub open spec fn marks_removed(s: Seq<char>) -> Seq<char>
    decreases s.len(),
{
    if s.len() == 0 {
        Seq::<char>::empty()
    } else if combining_mark(s.last()) {
        marks_removed(s.drop_last())
    } else {
        marks_removed(s.drop_last()).push(s.last())
    }
}

/// Whether a character is an ASCII letter or digit.
pub open spec fn is_ascii_alnum(c: char) -> bool {
    (0x30 <= c as u32 && c as u32 <= 0x39) || (0x41 <= c as u32 && c as u32 <= 0x5a) || (0x61 <= c
        as u32 && c as u32 <= 0x7a)
}

/// Whether a character is an ASCII letter or digit, executably.
pub fn is_ascii_alnum_char(c: char) -> (r: bool)
    ensures
        r == is_ascii_alnum(c),
{
    let u = c as u32;
    (0x30 <= u && u <= 0x39) || (0x41 <= u && u <= 0x5a) || (0x61 <= u && u <= 0x7a)
}

/// A text with every maximal run of non-alphanumeric characters
/// replaced by a single hyphen.
pub open spec fn hyphenated(s: Seq<char>) -> Seq<char>
    decreases s.len(),
{
    if s.len() == 0 {
        Seq::<char>::empty()
    } else {
        let r = hyphenated(s.drop_last());
        if is_ascii_alnum(s.last()) {
            r.push(s.last())
        } else if r.len() > 0 && r.last() == '-' {
            r
        } else {
            r.push('-')
        }
    }
}

/// A text without its leading hyphens.
pub open spec fn trim_left_hyphen(s: Seq<char>) -> Seq<char>
    decreases s.len(),
{
    if s.len() > 0 && s[0] == '-' {
        trim_left_hyphen(s.drop_first())
    } else {
        s
    }
}

/// A text without its trailing hyphens.
pub open spec fn trim_right_hyphen(s: Seq<char>) -> Seq<char>
    decreases s.len(),
{
    if s.len() > 0 && s.last() == '-' {
        trim_right_hyphen(s.drop_last())
    } else {
        s
    }
}

/// A text without its leading and trailing hyphens.
pub open spec fn trim_hyphens(s: Seq<char>) -> Seq<char> {
    trim_right_hyphen(trim_left_hyphen(s))
}

/// The slug of a text: lowercased, canonically decomposed with the
/// combining marks dropped, non-alphanumeric runs replaced by single
/// hyphens, and edge hyphens trimmed.
pub open spec fn handleize_seq(s: Seq<char>) -> Seq<char> {
    trim_hyphens(hyphenated(marks_removed(nfd_of(lower_of(s)))))
}

/// Left-trim of hyphens: the exec index agrees with the spec trim.
proof fn lemma_trim_left_hyphen_step(s: Seq<char>, i: int)
    requires
        0 <= i < s.len(),
        s[i] == '-',
        trim_left_hyphen(s) == trim_left_hyphen(s.skip(i)),
    ensures
        trim_left_hyphen(s) == trim_left_hyphen(s.skip(i + 1)),
{
    assert(s.skip(i)[0] == s[i]);
    assert(s.skip(i).drop_first() =~= s.skip(i + 1));
}

/// Removes leading and trailing hyphens from a character vector.
fn trim_hyphen_vec(v: &Vec<char>) -> (r: Vec<char>)
    ensures
        r@ == trim_hyphens(v@),
{
    let mut lo: usize = 0;
    proof {
        assert(v@.skip(0) =~= v@);
    }
    while lo < v.len() && v[lo] == '-'
        invariant
            lo <= v@.len(),
            trim_left_hyphen(v@) == trim_left_hyphen(v@.skip(lo as int)),
        decreases v@.len() - lo,
    {
        proof {
            lemma_trim_left_hyphen_step(v@, lo as int);
        }
        lo = lo + 1;
    }
    proof {
        if lo < v@.len() {
            assert(v@.skip(lo as int)[0] == v@[lo as int]);
            assert(trim_left_hyphen(v@.skip(lo as int)) == v@.skip(lo as int));
        } else {
            assert(v@.skip(lo as int) =~= Seq::<char>::empty());
        }
        assert(trim_left_hyphen(v@) == v@.skip(lo as int));
        assert(v@.skip(lo as int) =~= v@.subrange(lo as int, v@.len() as int));
    }
    let mut hi: usize = v.len();
    while hi > lo && v[hi - 1] == '-'
        invariant
            lo <= hi <= v@.len(),
            trim_left_hyphen(v@) == v@.subrange(lo as int, v@.len() as int),
            trim_right_hyphen(trim_left_hyphen(v@)) == trim_right_hyphen(
                v@.subrange(lo as int, hi as int),
            ),
        decreases hi,
    {
        proof {
            let cur = v@.subrange(lo as int, hi as int);
            assert(cur.last() == v@[hi - 1]);
            assert(cur.drop_last() =~= v@.subrange(lo as int, hi - 1));
        }
        hi = hi - 1;
    }
    proof {
        let cur = v@.subrange(lo as int, hi as int);
        if hi > lo {
            assert(cur.last() == v@[hi - 1]);
            assert(trim_right_hyphen(cur) == cur);
        } else {
            assert(cur =~= Seq::<char>::empty());
        }
        assert(trim_hyphens(v@) == v@.subrange(lo as int, hi as int));
    }
    let mut r: Vec<char> = Vec::new();
    let mut i: usize = lo;
    while i < hi
        invariant
            lo <= i <= hi <= v@.len(),
            r@ == v@.subrange(lo as int, i as int),
        decreases hi - i,
    {
        r.push(v[i]);
        i = i + 1;
        proof {
            assert(r@ =~= v@.subrange(lo as int, i as int));
        }
    }
    proof {
        assert(r@ == trim_hyphens(v@));
    }
    r
}

/// Produces a URL-safe slug: the text is lowercased, canonically
/// decomposed with its combining marks dropped, every run of
/// non-alphanumeric characters becomes one hyphen, and edge hyphens
/// are trimmed. Absent or empty input yields the empty string.
pub fn handleize(text: Option<String>) -> (r: String)
    ensures
        r@ == (match text {
            Some(t) => if t@.len() > 0 {
                handleize_seq(t@)
            } else {
                Seq::<char>::empty()
            },
            None => Seq::<char>::empty(),
        }),
{
    let t = match text {
        Some(t) => {
            if t.as_str().is_empty() {
                return String::new();
            }
            t
        },
        None => {
            return String::new();
        },
    };
    let low = lowercase(t.as_str());
    let norm = nfd(low.as_str());
    let nv = chars_of(norm.as_str());

    let mut kept: Vec<char> = Vec::new();
    let mut i: usize = 0;
    proof {
        assert(nv@.subrange(0, 0) =~= Seq::<char>::empty());
    }
    while i < nv.len()
        invariant
            i <= nv@.len(),
            kept@ == marks_removed(nv@.subrange(0, i as int)),
        decreases nv@.len() - i,
    {
        let c = nv[i];
        if !is_mark(c) {
            kept.push(c);
        }
        i = i + 1;
        proof {
            let pre = nv@.subrange(0, i - 1);
            let cur = nv@.subrange(0, i as int);
            assert(cur.drop_last() =~= pre);
            assert(cur.last() == nv@[i - 1]);
        }
    }
    proof {
        assert(nv@.subrange(0, nv@.len() as int) =~= nv@);
    }

    let mut hy: Vec<char> = Vec::new();
    let mut prev = false;
    let mut j: usize = 0;
    proof {
        assert(kept@.subrange(0, 0) =~= Seq::<char>::empty());
    }
    while j < kept.len()
        invariant
            j <= kept@.len(),
            hy@ == hyphenated(kept@.subrange(0, j as int)),
            prev == (hy@.len() > 0 && hy@.last() == '-'),
        decreases kept@.len() - j,
    {
        let c = kept[j];
        if is_ascii_alnum_char(c) {
            hy.push(c);
            prev = false;
        } else if !prev {
            hy.push('-');
            prev = true;
        }
        j = j + 1;
        proof {
            let pre = kept@.subrange(0, j - 1);
            let cur = kept@.subrange(0, j as int);
            assert(cur.drop_last() =~= pre);
            assert(cur.last() == kept@[j - 1]);
            assert(!is_ascii_alnum('-'));
        }
    }
    proof {
        assert(kept@.subrange(0, kept@.len() as int) =~= kept@);
    }

    let trimmed = trim_hyphen_vec(&hy);
    string_of(&trimmed)
}

} // verus!

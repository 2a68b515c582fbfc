//! HTML filters: entity escaping, tag stripping, newline removal and
//! newline-to-`<br>` conversion.

use vstd::prelude::*;
use crate::strutil::chars_of;
use crate::strutil::string_of;

verus! {

/// The view of an optional text argument: an absent string is read as
/// the empty string.
pub open spec fn text_or_empty(t: Option<String>) -> Seq<char> {
    match t {
        Some(s) => s@,
        None => Seq::<char>::empty(),
    }
}

/// The five characters that HTML escaping replaces.
pub open spec fn needs_escape(c: char) -> bool {
    c == '&' || c == '<' || c == '>' || c == '"' || c == '\''
}

/// What one character becomes under HTML escaping.
pub open spec fn escape_char(c: char) -> Seq<char> {
    if c == '&' {
        seq!['&', 'a', 'm', 'p', ';']
    } else if c == '<' {
        seq!['&', 'l', 't', ';']
    } else if c == '>' {
        seq!['&', 'g', 't', ';']
    } else if c == '"' {
        seq!['&', 'q', 'u', 'o', 't', ';']
    } else if c == '\'' {
        seq!['&', '#', 'x', '2', '7', ';']
    } else {
        seq![c]
    }
}

/// HTML escaping of a whole text, character by character.
pub open spec fn escape_seq(s: Seq<char>) -> Seq<char>
    decreases s.len(),
{
    if s.len() == 0 {
        Seq::<char>::empty()
    } else {
        escape_seq(s.drop_last()) + escape_char(s.last())
    }
}

/// Undoing HTML escaping: each of the five entities turns back into its
/// character; everything else is copied.
pub open spec fn unescape_seq(s: Seq<char>) -> Seq<char>
    decreases s.len(),
{
    if s.len() == 0 {
        Seq::<char>::empty()
    } else if s.len() >= 5 && s.subrange(0, 5) == seq!['&', 'a', 'm', 'p', ';'] {
        seq!['&'] + unescape_seq(s.skip(5))
    } else if s.len() >= 4 && s.subrange(0, 4) == seq!['&', 'l', 't', ';'] {
        seq!['<'] + unescape_seq(s.skip(4))
    } else if s.len() >= 4 && s.subrange(0, 4) == seq!['&', 'g', 't', ';'] {
        seq!['>'] + unescape_seq(s.skip(4))
    } else if s.len() >= 6 && s.subrange(0, 6) == seq!['&', 'q', 'u', 'o', 't', ';'] {
        seq!['"'] + unescape_seq(s.skip(6))
    } else if s.len() >= 6 && s.subrange(0, 6) == seq!['&', '#', 'x', '2', '7', ';'] {
        seq!['\''] + unescape_seq(s.skip(6))
    } else {
        seq![s[0]] + unescape_seq(s.drop_first())
    }
}

/// Escaping leaves a text without escapable characters unchanged.
pub proof fn lemma_escape_identity(s: Seq<char>)
    requires
        forall|i: int| 0 <= i < s.len() ==> !needs_escape(s[i]),
    ensures
        escape_seq(s) == s,
    decreases s.len(),
{
    if s.len() == 0 {
        assert(escape_seq(s) =~= s);
    } else {
        assert(forall|i: int| 0 <= i < s.drop_last().len() ==> !needs_escape(s.drop_last()[i]));
        lemma_escape_identity(s.drop_last());
        assert(!needs_escape(s.last()));
        assert(escape_char(s.last()) =~= seq![s.last()]);
        assert(escape_seq(s) =~= s.drop_last() + seq![s.last()]);
        assert(s.drop_last() + seq![s.last()] =~= s);
    }
}

/// Escaping distributes over concatenation.
proof fn lemma_escape_add(a: Seq<char>, b: Seq<char>)
    ensures
        escape_seq(a + b) == escape_seq(a) + escape_seq(b),
    decreases b.len(),
{
    if b.len() == 0 {
        assert(a + b =~= a);
        assert(escape_seq(b) =~= Seq::<char>::empty());
        assert(escape_seq(a) + escape_seq(b) =~= escape_seq(a));
    } else {
        lemma_escape_add(a, b.drop_last());
        assert((a + b).drop_last() =~= a + b.drop_last());
        assert((a + b).last() == b.last());
        assert(escape_seq(a + b) == escape_seq(a + b.drop_last()) + escape_char(b.last()));
        assert(escape_seq(a) + escape_seq(b.drop_last()) + escape_char(b.last())
            =~= escape_seq(a) + (escape_seq(b.drop_last()) + escape_char(b.last())));
    }
}

/// Escaping a single character yields exactly its replacement.
proof fn lemma_escape_one(c: char)
    ensures
        escape_seq(seq![c]) == escape_char(c),
{
    assert(seq![c].drop_last() =~= Seq::<char>::empty());
    assert(seq![c].last() == c);
    assert(escape_seq(Seq::<char>::empty()) =~= Seq::<char>::empty());
    assert(Seq::<char>::empty() + escape_char(c) =~= escape_char(c));
}

/// Escaping seen from the front: the first character's replacement,
/// then the escaped remainder.
proof fn lemma_escape_first(s: Seq<char>)
    requires
        s.len() > 0,
    ensures
        escape_seq(s) == escape_char(s[0]) + escape_seq(s.drop_first()),
{
    assert(s =~= seq![s[0]] + s.drop_first());
    lemma_escape_add(seq![s[0]], s.drop_first());
    lemma_escape_one(s[0]);
}

/// Round trip: unescaping an escaped text recovers the original text.
pub proof fn lemma_escape_round_trip(s: Seq<char>)
    ensures
        unescape_seq(escape_seq(s)) == s,
    decreases s.len(),
{
    if s.len() == 0 {
        assert(escape_seq(s) =~= Seq::<char>::empty());
        assert(unescape_seq(escape_seq(s)) =~= s);
    } else {
        let c = s[0];
        let rest = s.drop_first();
        lemma_escape_first(s);
        lemma_escape_round_trip(rest);
        let e = escape_seq(s);
        assert(e == escape_char(c) + escape_seq(rest));
        if c == '&' {
            assert(e.len() >= 5);
            assert(e.subrange(0, 5) =~= seq!['&', 'a', 'm', 'p', ';']);
            assert(e.skip(5) =~= escape_seq(rest));
            assert(unescape_seq(e) == seq!['&'] + unescape_seq(e.skip(5)));
            assert(seq!['&'] + rest =~= s);
        } else if c == '<' {
            assert(e[1] == 'l');
            assert(e.len() >= 5 ==> e.subrange(0, 5)[1] == 'l');
            assert(e.subrange(0, 4) =~= seq!['&', 'l', 't', ';']);
            assert(e.skip(4) =~= escape_seq(rest));
            assert(unescape_seq(e) =~= seq!['<'] + rest);
            assert(seq!['<'] + rest =~= s);
        } else if c == '>' {
            assert(e[1] == 'g');
            assert(e.len() >= 5 ==> e.subrange(0, 5)[1] == 'g');
            assert(e.subrange(0, 4) =~= seq!['&', 'g', 't', ';']);
            assert(e.skip(4) =~= escape_seq(rest));
            assert(unescape_seq(e) =~= seq!['>'] + rest);
            assert(seq!['>'] + rest =~= s);
        } else if c == '"' {
            assert(e[1] == 'q');
            assert(e.len() >= 5 ==> e.subrange(0, 5)[1] == 'q');
            assert(e.len() >= 4 ==> e.subrange(0, 4)[1] == 'q');
            assert(e.subrange(0, 6) =~= seq!['&', 'q', 'u', 'o', 't', ';']);
            assert(e.skip(6) =~= escape_seq(rest));
            assert(unescape_seq(e) =~= seq!['"'] + rest);
            assert(seq!['"'] + rest =~= s);
        } else if c == '\'' {
            assert(e[1] == '#');
            assert(e.len() >= 5 ==> e.subrange(0, 5)[1] == '#');
            assert(e.len() >= 4 ==> e.subrange(0, 4)[1] == '#');
            assert(e.subrange(0, 6) =~= seq!['&', '#', 'x', '2', '7', ';']);
            assert(e.skip(6) =~= escape_seq(rest));
            assert(unescape_seq(e) =~= seq!['\''] + rest);
            assert(seq!['\''] + rest =~= s);
        } else {
            assert(e[0] == c);
            assert(e.len() >= 5 ==> e.subrange(0, 5)[0] == c);
            assert(e.len() >= 4 ==> e.subrange(0, 4)[0] == c);
            assert(e.len() >= 6 ==> e.subrange(0, 6)[0] == c);
            assert(e.drop_first() =~= escape_seq(rest));
            assert(unescape_seq(e) =~= seq![c] + rest);
            assert(seq![c] + rest =~= s);
        }
    }
}

/// Appends the replacement of one character to the output.
fn push_escaped(out: &mut Vec<char>, c: char)
    ensures
        final(out)@ == old(out)@ + escape_char(c),
{
    if c == '&' {
        out.push('&');
        out.push('a');
        out.push('m');
        out.push('p');
        out.push(';');
    } else if c == '<' {
        out.push('&');
        out.push('l');
        out.push('t');
        out.push(';');
    } else if c == '>' {
        out.push('&');
        out.push('g');
        out.push('t');
        out.push(';');
    } else if c == '"' {
        out.push('&');
        out.push('q');
        out.push('u');
        out.push('o');
        out.push('t');
        out.push(';');
    } else if c == '\'' {
        out.push('&');
        out.push('#');
        out.push('x');
        out.push('2');
        out.push('7');
        out.push(';');
    } else {
        out.push(c);
    }
    proof {
        assert(out@ =~= old(out)@ + escape_char(c));
    }
}

/// Replaces `&`, `<`, `>`, `"` and `'` with their HTML entities, leaving
/// every other character unchanged. Absent or empty input yields the
/// empty string; input without escapable characters comes back as it is.
pub fn escape(text: Option<String>) -> (r: String)
    ensures
        r@ == escape_seq(text_or_empty(text)),
{
    let t = match text {
        Some(t) => {
            if t.as_str().unicode_len() == 0 {
                proof {
                    assert(escape_seq(t@) =~= Seq::<char>::empty());
                }
                return String::new();
            }
            t
        },
        None => {
            return String::new();
        },
    };
    let v = chars_of(t.as_str());

    let mut found = false;
    let mut i: usize = 0;
    while i < v.len()
        invariant
            i <= v@.len(),
            found == exists|j: int| 0 <= j < i && #[trigger] needs_escape(v@[j]),
        decreases v@.len() - i,
    {
        let c = v[i];
        let escapable = c == '&' || c == '<' || c == '>' || c == '"' || c == '\'';
        if escapable {
            found = true;
        }
        proof {
            if escapable {
                assert(needs_escape(v@[i as int]));
            } else {
                assert(!needs_escape(v@[i as int]));
            }
        }
        i = i + 1;
    }

    if !found {
        proof {
            lemma_escape_identity(v@);
        }
        return t;
    }

    let mut out: Vec<char> = Vec::new();
    let mut i: usize = 0;
    while i < v.len()
        invariant
            i <= v@.len(),
            out@ == escape_seq(v@.subrange(0, i as int)),
        decreases v@.len() - i,
    {
        push_escaped(&mut out, v[i]);
        i = i + 1;
        proof {
            let pre = v@.subrange(0, i - 1);
            let cur = v@.subrange(0, i as int);
            assert(cur.drop_last() =~= pre);
            assert(cur.last() == v@[i - 1]);
        }
    }
    proof {
        assert(v@.subrange(0, v@.len() as int) =~= v@);
    }
    string_of(&out)
}

/// Whether a character counts as whitespace: the Unicode `White_Space`
/// code points.
pub open spec fn is_space(c: char) -> bool {
    c as u32 == 0x20 || (0x09 <= c as u32 && c as u32 <= 0x0d) || c as u32 == 0x85
        || c as u32 == 0xa0 || c as u32 == 0x1680 || (0x2000 <= c as u32 && c as u32 <= 0x200a)
        || c as u32 == 0x2028 || c as u32 == 0x2029 || c as u32 == 0x202f || c as u32 == 0x205f
        || c as u32 == 0x3000
}

/// Whether a character counts as whitespace, executably.
pub fn is_space_char(c: char) -> (r: bool)
    ensures
        r == is_space(c),
{
    let u = c as u32;
    u == 0x20 || (0x09 <= u && u <= 0x0d) || u == 0x85 || u == 0xa0 || u == 0x1680
        || (0x2000 <= u && u <= 0x200a) || u == 0x2028 || u == 0x2029 || u == 0x202f
        || u == 0x205f || u == 0x3000
}

/// One step of tag stripping. The state is: are we inside a `<...>`
/// tag, did the output just end in a space, and the output so far.
/// Tag delimiters are dropped (a closing `>` leaves one space), text
/// inside a tag is dropped, and runs of whitespace outside tags
/// collapse to a single space.
pub open spec fn strip_step(inside: bool, prev: bool, out: Seq<char>, c: char) -> (bool, bool, Seq<
    char,
>) {
    if c == '<' {
        (true, prev, out)
    } else if c == '>' {
        if !prev && out.len() > 0 {
            (false, true, out.push(' '))
        } else {
            (false, prev, out)
        }
    } else if inside {
        (true, prev, out)
    } else if is_space(c) {
        if !prev {
            (inside, true, out.push(' '))
        } else {
            (inside, prev, out)
        }
    } else {
        (inside, false, out.push(c))
    }
}

/// The stripping state after reading a whole text, starting outside any
/// tag with an empty output.
pub open spec fn strip_state(s: Seq<char>) -> (bool, bool, Seq<char>)
    decreases s.len(),
{
    if s.len() == 0 {
        (false, false, Seq::<char>::empty())
    } else {
        let st = strip_state(s.drop_last());
        strip_step(st.0, st.1, st.2, s.last())
    }
}

/// A text without its leading whitespace.
pub open spec fn trim_left_space(s: Seq<char>) -> Seq<char>
    decreases s.len(),
{
    if s.len() > 0 && is_space(s[0]) {
        trim_left_space(s.drop_first())
    } else {
        s
    }
}

/// A text without its trailing whitespace.
pub open spec fn trim_right_space(s: Seq<char>) -> Seq<char>
    decreases s.len(),
{
    if s.len() > 0 && is_space(s.last()) {
        trim_right_space(s.drop_last())
    } else {
        s
    }
}

/// A text without its leading and trailing whitespace.
pub open spec fn trim_spaces(s: Seq<char>) -> Seq<char> {
    trim_right_space(trim_left_space(s))
}

/// A text with tags stripped: the collapsed tag-free text, trimmed of
/// edge whitespace.
pub open spec fn strip_html_seq(s: Seq<char>) -> Seq<char> {
    trim_spaces(strip_state(s).2)
}

/// What holds of every stripping output: no tag delimiters, the only
/// whitespace is a single space, and no two spaces are adjacent.
pub open spec fn stripped_ok(s: Seq<char>) -> bool {
    (forall|i: int|
        0 <= i < s.len() ==> #[trigger] s[i] != '<' && s[i] != '>' && (is_space(s[i]) ==> s[i]
            == ' ')) && (forall|i: int| 0 <= i < s.len() - 1 ==> !(#[trigger] s[i] == ' ' && s[i + 1]
        == ' '))
}

/// The stripping fold keeps its output well formed, and its space flag
/// says exactly whether the output ends in a space.
proof fn lemma_strip_state_ok(s: Seq<char>)
    ensures
        stripped_ok(strip_state(s).2),
        strip_state(s).1 <==> (strip_state(s).2.len() > 0 && strip_state(s).2.last() == ' '),
    decreases s.len(),
{
    if s.len() > 0 {
        lemma_strip_state_ok(s.drop_last());
        let st = strip_state(s.drop_last());
        let c = s.last();
        let r = strip_state(s).2;
        let r0 = st.2;
        if r != r0 {
            let x: char = if is_space(c) || c == '>' { ' ' } else { c };
            assert(r == r0.push(x));
            assert forall|i: int| 0 <= i < r.len() implies #[trigger] r[i] != '<' && r[i] != '>'
                && (is_space(r[i]) ==> r[i] == ' ') by {
                if i < r0.len() {
                    assert(r[i] == r0[i]);
                } else {
                    assert(r[i] == x);
                }
            }
            assert forall|i: int| 0 <= i < r.len() - 1 implies !(#[trigger] r[i] == ' ' && r[i + 1]
                == ' ') by {
                if i + 1 < r0.len() {
                    assert(r[i] == r0[i] && r[i + 1] == r0[i + 1]);
                } else {
                    assert(r[i] == r0.last() && r[i + 1] == x);
                }
            }
        }
    }
}

/// Dropping the first character keeps a stripping output well formed.
proof fn lemma_stripped_ok_drop_first(s: Seq<char>)
    requires
        stripped_ok(s),
        s.len() > 0,
    ensures
        stripped_ok(s.drop_first()),
{
    let d = s.drop_first();
    assert(forall|i: int| 0 <= i < d.len() ==> #[trigger] d[i] == s[i + 1]);
}

/// Dropping the last character keeps a stripping output well formed.
proof fn lemma_stripped_ok_drop_last(s: Seq<char>)
    requires
        stripped_ok(s),
        s.len() > 0,
    ensures
        stripped_ok(s.drop_last()),
{
    let d = s.drop_last();
    assert(forall|i: int| 0 <= i < d.len() ==> #[trigger] d[i] == s[i]);
}

/// Left-trimming a well-formed stripping output keeps it well formed
/// and leaves no leading whitespace.
proof fn lemma_trim_left_ok(s: Seq<char>)
    requires
        stripped_ok(s),
    ensures
        stripped_ok(trim_left_space(s)),
        trim_left_space(s).len() > 0 ==> !is_space(trim_left_space(s)[0]),
    decreases s.len(),
{
    if s.len() > 0 && is_space(s[0]) {
        lemma_stripped_ok_drop_first(s);
        lemma_trim_left_ok(s.drop_first());
    }
}

/// Right-trimming keeps a well-formed output well formed, keeps the
/// absence of leading whitespace, and leaves no trailing whitespace.
proof fn lemma_trim_right_ok(s: Seq<char>)
    requires
        stripped_ok(s),
        s.len() > 0 ==> !is_space(s[0]),
    ensures
        stripped_ok(trim_right_space(s)),
        trim_right_space(s).len() > 0 ==> !is_space(trim_right_space(s)[0]),
        trim_right_space(s).len() > 0 ==> !is_space(trim_right_space(s).last()),
    decreases s.len(),
{
    if s.len() > 0 && is_space(s.last()) {
        lemma_stripped_ok_drop_last(s);
        assert(s.drop_last().len() > 0 ==> s.drop_last()[0] == s[0]);
        lemma_trim_right_ok(s.drop_last());
    }
}

/// On a well-formed, edge-trimmed text the stripping fold is the
/// identity: it comes back unchanged, still outside any tag.
proof fn lemma_strip_state_id(t: Seq<char>)
    requires
        stripped_ok(t),
        t.len() > 0 ==> t[0] != ' ',
    ensures
        strip_state(t).0 == false,
        strip_state(t).1 <==> (t.len() > 0 && t.last() == ' '),
        strip_state(t).2 == t,
    decreases t.len(),
{
    if t.len() > 0 {
        let u = t.drop_last();
        lemma_stripped_ok_drop_last(t);
        assert(u.len() > 0 ==> u[0] == t[0]);
        lemma_strip_state_id(u);
        let c = t.last();
        assert(c != '<' && c != '>');
        if is_space(c) {
            assert(c == ' ');
            assert(u.len() > 0) by {
                if u.len() == 0 {
                    assert(t[0] == c);
                }
            }
            assert(u.last() != ' ') by {
                assert(!(t[t.len() - 2] == ' ' && t[t.len() - 1] == ' '));
                assert(u.last() == t[t.len() - 2]);
            }
            assert(strip_state(t).2 == u.push(' '));
            assert(u.push(' ') =~= t);
        } else {
            assert(strip_state(t).2 == u.push(c));
            assert(u.push(c) =~= t);
        }
    }
}

/// Trimming a text with no whitespace at either edge changes nothing.
proof fn lemma_trim_id(t: Seq<char>)
    requires
        t.len() > 0 ==> !is_space(t[0]),
        t.len() > 0 ==> !is_space(t.last()),
    ensures
        trim_spaces(t) == t,
{
    assert(trim_left_space(t) == t);
    assert(trim_right_space(t) == t);
}

/// Tag stripping is idempotent: one pass leaves nothing for a second
/// pass to remove.
pub proof fn lemma_strip_html_idempotent(s: Seq<char>)
    ensures
        strip_html_seq(strip_html_seq(s)) == strip_html_seq(s),
{
    let out = strip_state(s).2;
    lemma_strip_state_ok(s);
    lemma_trim_left_ok(out);
    lemma_trim_right_ok(trim_left_space(out));
    let t = strip_html_seq(s);
    assert(t == trim_right_space(trim_left_space(out)));
    assert(t.len() > 0 ==> !is_space(t[0]) && !is_space(t.last()));
    assert(t.len() > 0 ==> t[0] != ' ');
    lemma_strip_state_id(t);
    lemma_trim_id(t);
}

/// Left-trim: the exec index agrees with the spec trim.
proof fn lemma_trim_left_step(s: Seq<char>, i: int)
    requires
        0 <= i < s.len(),
        is_space(s[i]),
        trim_left_space(s) == trim_left_space(s.skip(i)),
    ensures
        trim_left_space(s) == trim_left_space(s.skip(i + 1)),
{
    assert(s.skip(i)[0] == s[i]);
    assert(s.skip(i).drop_first() =~= s.skip(i + 1));
}

/// Removes leading and trailing whitespace from a character vector.
fn trim_space_vec(v: &Vec<char>) -> (r: Vec<char>)
    ensures
        r@ == trim_spaces(v@),
{
    let mut lo: usize = 0;
    proof {
        assert(v@.skip(0) =~= v@);
    }
    while lo < v.len() && is_space_char(v[lo])
        invariant
            lo <= v@.len(),
            trim_left_space(v@) == trim_left_space(v@.skip(lo as int)),
        decreases v@.len() - lo,
    {
        proof {
            lemma_trim_left_step(v@, lo as int);
        }
        lo = lo + 1;
    }
    proof {
        if lo < v@.len() {
            assert(v@.skip(lo as int)[0] == v@[lo as int]);
            assert(trim_left_space(v@.skip(lo as int)) == v@.skip(lo as int));
        } else {
            assert(v@.skip(lo as int) =~= Seq::<char>::empty());
        }
        assert(trim_left_space(v@) == v@.skip(lo as int));
        assert(v@.skip(lo as int) =~= v@.subrange(lo as int, v@.len() as int));
    }
    let mut hi: usize = v.len();
    while hi > lo && is_space_char(v[hi - 1])
        invariant
            lo <= hi <= v@.len(),
            trim_left_space(v@) == v@.subrange(lo as int, v@.len() as int),
            trim_right_space(trim_left_space(v@)) == trim_right_space(
                v@.subrange(lo as int, hi as int),
            ),
        decreases hi,
    {
        proof {
            let cur = v@.subrange(lo as int, hi as int);
            assert(cur.last() == v@[hi - 1]);
            assert(cur.drop_last() =~= v@.subrange(lo as int, hi - 1));
        }
        hi = hi - 1;
    }
    proof {
        let cur = v@.subrange(lo as int, hi as int);
        if hi > lo {
            assert(cur.last() == v@[hi - 1]);
            assert(trim_right_space(cur) == cur);
        } else {
            assert(cur =~= Seq::<char>::empty());
        }
        assert(trim_spaces(v@) == v@.subrange(lo as int, hi as int));
    }
    let mut r: Vec<char> = Vec::new();
    let mut i: usize = lo;
    while i < hi
        invariant
            lo <= i <= hi <= v@.len(),
            r@ == v@.subrange(lo as int, i as int),
        decreases hi - i,
    {
        r.push(v[i]);
        i = i + 1;
        proof {
            assert(r@ =~= v@.subrange(lo as int, i as int));
        }
    }
    proof {
        assert(r@ == trim_spaces(v@));
    }
    r
}

/// Removes `<...>` tags: tag delimiters and tag contents are dropped
/// (a closing `>` leaves a space), runs of whitespace collapse to one
/// space, and the result is trimmed. A `<` without a matching `>`
/// suppresses everything after it. Absent or empty input yields the
/// empty string.
pub fn strip_html(text: Option<String>) -> (r: String)
    ensures
        r@ == strip_html_seq(text_or_empty(text)),
{
    let t = match text {
        Some(t) => {
            if t.as_str().unicode_len() == 0 {
                return String::new();
            }
            t
        },
        None => {
            return String::new();
        },
    };
    let v = chars_of(t.as_str());
    let mut out: Vec<char> = Vec::new();
    let mut inside = false;
    let mut prev = false;
    let mut i: usize = 0;
    proof {
        assert(v@.subrange(0, 0) =~= Seq::<char>::empty());
    }
    while i < v.len()
        invariant
            i <= v@.len(),
            inside == strip_state(v@.subrange(0, i as int)).0,
            prev == strip_state(v@.subrange(0, i as int)).1,
            out@ == strip_state(v@.subrange(0, i as int)).2,
        decreases v@.len() - i,
    {
        let c = v[i];
        if c == '<' {
            inside = true;
        } else if c == '>' {
            inside = false;
            if !prev && out.len() > 0 {
                out.push(' ');
                prev = true;
            }
        } else if !inside {
            if is_space_char(c) {
                if !prev {
                    out.push(' ');
                    prev = true;
                }
            } else {
                out.push(c);
                prev = false;
            }
        }
        i = i + 1;
        proof {
            let pre = v@.subrange(0, i - 1);
            let cur = v@.subrange(0, i as int);
            assert(cur.drop_last() =~= pre);
            assert(cur.last() == v@[i - 1]);
        }
    }
    proof {
        assert(v@.subrange(0, v@.len() as int) =~= v@);
    }
    let trimmed = trim_space_vec(&out);
    string_of(&trimmed)
}

/// A text without its newlines: every `\n` and `\r` is dropped, every
/// other character kept in order.
pub open spec fn strip_newlines_seq(s: Seq<char>) -> Seq<char>
    decreases s.len(),
{
    if s.len() == 0 {
        Seq::<char>::empty()
    } else if s.last() == '\n' || s.last() == '\r' {
        strip_newlines_seq(s.drop_last())
    } else {
        strip_newlines_seq(s.drop_last()).push(s.last())
    }
}

/// The stripped text never contains a newline or carriage return.
pub proof fn lemma_strip_newlines_clean(s: Seq<char>)
    ensures
        forall|i: int| 0 <= i < strip_newlines_seq(s).len()
            ==> #[trigger] strip_newlines_seq(s)[i] != '\n' && strip_newlines_seq(s)[i] != '\r',
    decreases s.len(),
{
    if s.len() > 0 {
        lemma_strip_newlines_clean(s.drop_last());
        let r0 = strip_newlines_seq(s.drop_last());
        let r = strip_newlines_seq(s);
        if s.last() == '\n' || s.last() == '\r' {
            assert(r == r0);
        } else {
            assert(r == r0.push(s.last()));
            assert forall|i: int| 0 <= i < r.len() implies r[i] != '\n' && r[i] != '\r' by {
                if i < r0.len() {
                    assert(r[i] == r0[i]);
                } else {
                    assert(r[i] == s.last());
                }
            }
        }
    }
}

/// Removes every `\n` and `\r`, preserving all other characters.
/// Absent or empty input yields the empty string.
pub fn strip_newlines(text: Option<String>) -> (r: String)
    ensures
        r@ == strip_newlines_seq(text_or_empty(text)),
{
    let t = match text {
        Some(t) => {
            if t.as_str().unicode_len() == 0 {
                return String::new();
            }
            t
        },
        None => {
            return String::new();
        },
    };
    let v = chars_of(t.as_str());
    let mut out: Vec<char> = Vec::new();
    let mut i: usize = 0;
    while i < v.len()
        invariant
            i <= v@.len(),
            out@ == strip_newlines_seq(v@.subrange(0, i as int)),
        decreases v@.len() - i,
    {
        let c = v[i];
        if c != '\n' && c != '\r' {
            out.push(c);
        }
        i = i + 1;
        proof {
            let pre = v@.subrange(0, i - 1);
            let cur = v@.subrange(0, i as int);
            assert(cur.drop_last() =~= pre);
            assert(cur.last() == v@[i - 1]);
        }
    }
    proof {
        assert(v@.subrange(0, v@.len() as int) =~= v@);
    }
    string_of(&out)
}

/// A text with each newline sequence replaced by `<br>`: a `\r\n` pair
/// becomes one `<br>`, and a remaining lone `\n` or `\r` likewise.
pub open spec fn newline_to_br_seq(s: Seq<char>) -> Seq<char>
    decreases s.len(),
{
    if s.len() == 0 {
        Seq::<char>::empty()
    } else if s[0] == '\r' && s.len() >= 2 && s[1] == '\n' {
        seq!['<', 'b', 'r', '>'] + newline_to_br_seq(s.skip(2))
    } else if s[0] == '\r' || s[0] == '\n' {
        seq!['<', 'b', 'r', '>'] + newline_to_br_seq(s.skip(1))
    } else {
        seq![s[0]] + newline_to_br_seq(s.skip(1))
    }
}

/// Replaces each newline sequence with `<br>`: a `\r\n` pair becomes a
/// single `<br>`, then any lone `\n` or `\r` becomes `<br>` as well.
/// Absent or empty input yields the empty string.
pub fn newline_to_br(text: Option<String>) -> (r: String)
    ensures
        r@ == newline_to_br_seq(text_or_empty(text)),
{
    let t = match text {
        Some(t) => {
            if t.as_str().unicode_len() == 0 {
                return String::new();
            }
            t
        },
        None => {
            return String::new();
        },
    };
    let v = chars_of(t.as_str());
    let mut out: Vec<char> = Vec::new();
    let mut i: usize = 0;
    proof {
        assert(v@.skip(0) =~= v@);
        assert(Seq::<char>::empty() + newline_to_br_seq(v@) =~= newline_to_br_seq(v@));
    }
    while i < v.len()
        invariant
            i <= v@.len(),
            newline_to_br_seq(v@) == out@ + newline_to_br_seq(v@.skip(i as int)),
        decreases v@.len() - i,
    {
        let ghost pre = v@.skip(i as int);
        let ghost out0 = out@;
        let ghost br = seq!['<', 'b', 'r', '>'];
        let c = v[i];
        if c == '\r' && i + 1 < v.len() && v[i + 1] == '\n' {
            out.push('<');
            out.push('b');
            out.push('r');
            out.push('>');
            i = i + 2;
            proof {
                assert(pre[0] == '\r' && pre.len() >= 2 && pre[1] == '\n');
                assert(newline_to_br_seq(pre) == br + newline_to_br_seq(pre.skip(2)));
                assert(pre.skip(2) =~= v@.skip(i as int));
                assert(out@ =~= out0 + br);
                assert(out0 + (br + newline_to_br_seq(v@.skip(i as int)))
                    =~= (out0 + br) + newline_to_br_seq(v@.skip(i as int)));
            }
        } else if c == '\r' || c == '\n' {
            out.push('<');
            out.push('b');
            out.push('r');
            out.push('>');
            i = i + 1;
            proof {
                assert(!(pre[0] == '\r' && pre.len() >= 2 && pre[1] == '\n'));
                assert(newline_to_br_seq(pre) == br + newline_to_br_seq(pre.skip(1)));
                assert(pre.skip(1) =~= v@.skip(i as int));
                assert(out@ =~= out0 + br);
                assert(out0 + (br + newline_to_br_seq(v@.skip(i as int)))
                    =~= (out0 + br) + newline_to_br_seq(v@.skip(i as int)));
            }
        } else {
            out.push(c);
            i = i + 1;
            proof {
                assert(newline_to_br_seq(pre) == seq![pre[0]] + newline_to_br_seq(pre.skip(1)));
                assert(pre.skip(1) =~= v@.skip(i as int));
                assert(out@ =~= out0 + seq![pre[0]]);
                assert(out0 + (seq![pre[0]] + newline_to_br_seq(v@.skip(i as int)))
                    =~= (out0 + seq![pre[0]]) + newline_to_br_seq(v@.skip(i as int)));
            }
        }
    }
    proof {
        assert(v@.skip(v@.len() as int) =~= Seq::<char>::empty());
        assert(out@ + Seq::<char>::empty() =~= out@);
    }
    string_of(&out)
}

} // verus!

//! Rendering a notice body, written in HTML, as readable plain text.
use vstd::prelude::*;
use crate::text::{
    chars_of, find_char_from, is_space, lemma_span_until, lower, lower_chars, replace_all,
    replace_all_chars, slice_chars, span_until, string_of, trim, trim_chars, trim_end,
    trim_end_chars, trim_start, trim_start_chars, push_all, lemma_span_until_bound, eq_chars, lower_char,
    starts_with,
};

verus! {

// ---------------------------------------------------------------------------
// Model
// ---------------------------------------------------------------------------

/// ASCII letter or digit.
pub open spec fn is_alnum(c: char) -> bool {
    ('0' <= c && c <= '9') || ('a' <= c && c <= 'z') || ('A' <= c && c <= 'Z')
}

/// `s` without its leading `'/'` characters.
pub open spec fn strip_slashes(s: Seq<char>) -> Seq<char>
    decreases s.len(),
{
    if s.len() > 0 && s[0] == '/' {
        strip_slashes(s.drop_first())
    } else {
        s
    }
}

/// The longest prefix of `s` made of ASCII letters and digits.
pub open spec fn alnum_prefix(s: Seq<char>) -> Seq<char>
    decreases s.len(),
{
    if s.len() > 0 && is_alnum(s[0]) {
        seq![s[0]] + alnum_prefix(s.drop_first())
    } else {
        seq![]
    }
}

/// The element name of a tag, given what stands between `<` and `>`:
/// trimmed, without leading slashes, up to the first char that is not an ASCII
/// letter or digit, lower-cased.
pub open spec fn tag_name(tag: Seq<char>) -> Seq<char> {
    lower(alnum_prefix(strip_slashes(trim(tag))))
}

/// The elements that start a new line in the rendered text.
pub open spec fn is_block_name(name: Seq<char>) -> bool {
    ||| name == "br"@
    ||| name == "p"@
    ||| name == "div"@
    ||| name == "li"@
    ||| name == "tr"@
    ||| name == "h1"@
    ||| name == "h2"@
    ||| name == "h3"@
    ||| name == "h4"@
    ||| name == "ul"@
    ||| name == "ol"@
}

/// The text of `s` outside tags; a tag is `<` up to the next `>` (or to the
/// end), and a block-level tag is replaced by a newline, any other by nothing.
pub open spec fn strip_tags(s: Seq<char>) -> Seq<char>
    decreases s.len(),
{
    if s.len() == 0 {
        seq![]
    } else if s[0] == '<' {
        let body = s.skip(1);
        let k = span_until(body, '>');
        let mark = if is_block_name(tag_name(body.take(k as int))) {
            seq!['\n']
        } else {
            seq![]
        };
        if k < body.len() {
            mark + strip_tags(body.skip(k + 1int))
        } else {
            mark
        }
    } else {
        seq![s[0]] + strip_tags(s.skip(1))
    }
}

/// The HTML entities that notice bodies use, decoded; `&amp;` last, so that an
/// escaped entity such as `&amp;lt;` decodes to `&lt;` and no further.
pub open spec fn unescape_spec(s: Seq<char>) -> Seq<char> {
    let s1 = replace_all(s, "&lt;"@, "<"@);
    let s2 = replace_all(s1, "&gt;"@, ">"@);
    let s3 = replace_all(s2, "&quot;"@, "\""@);
    let s4 = replace_all(s3, "&#39;"@, "'"@);
    let s5 = replace_all(s4, "&apos;"@, "'"@);
    let s6 = replace_all(s5, "&nbsp;"@, " "@);
    replace_all(s6, "&amp;"@, "&"@)
}

/// The lines of `s` as `str::lines` yields them before a `'\r'` is dropped:
/// split at each `'\n'`, with no empty line after a final `'\n'`.
pub open spec fn split_lines(s: Seq<char>) -> Seq<Seq<char>>
    decreases s.len(),
{
    if s.len() == 0 {
        seq![]
    } else {
        let k = span_until(s, '\n');
        if k < s.len() {
            seq![s.take(k as int)] + split_lines(s.skip(k + 1int))
        } else {
            seq![s]
        }
    }
}

/// Lines laid out as text: each line trimmed and ended by `'\n'`; a run of
/// blank lines becomes a single empty line. `after_blank` tells whether the
/// line before `lines` was blank.
pub open spec fn layout(lines: Seq<Seq<char>>, after_blank: bool) -> Seq<char>
    decreases lines.len(),
{
    if lines.len() == 0 {
        seq![]
    } else {
        let line = trim_end(lines[0]);
        if trim(line).len() == 0 {
            (if after_blank {
                seq![]
            } else {
                seq!['\n']
            }) + layout(lines.drop_first(), true)
        } else {
            trim_start(line) + seq!['\n'] + layout(lines.drop_first(), false)
        }
    }
}

/// The readable text of an HTML body.
pub open spec fn html_text(html: Seq<char>) -> Seq<char> {
    layout(split_lines(unescape_spec(strip_tags(html))), false)
}

/// No three newlines in a row.
pub open spec fn no_triple_newline(s: Seq<char>) -> bool {
    forall|i: int|
        0 <= i && i + 2 < s.len() ==> !(#[trigger] s[i] == '\n' && s[i + 1] == '\n' && s[i + 2]
            == '\n')
}

// ---------------------------------------------------------------------------
// Tags
// ---------------------------------------------------------------------------

proof fn lemma_strip_slashes(s: Seq<char>, a: int)
    requires
        0 <= a <= s.len(),
        forall|k: int| 0 <= k < a ==> #[trigger] s[k] == '/',
        a == s.len() || s[a] != '/',
    ensures
        strip_slashes(s) == s.skip(a),
    decreases a,
{
    if a > 0 {
        assert(s.skip(a) =~= s.drop_first().skip(a - 1));
        lemma_strip_slashes(s.drop_first(), a - 1);
    } else {
        assert(s.skip(0) =~= s);
    }
}

proof fn lemma_alnum_prefix(s: Seq<char>, b: int)
    requires
        0 <= b <= s.len(),
        forall|k: int| 0 <= k < b ==> is_alnum(#[trigger] s[k]),
        b == s.len() || !is_alnum(s[b]),
    ensures
        alnum_prefix(s) == s.take(b),
    decreases b,
{
    if b > 0 {
        lemma_alnum_prefix(s.drop_first(), b - 1);
        assert(s.take(b) =~= seq![s[0]] + s.drop_first().take(b - 1));
    }
}

/// Whether `name` is `lit`.
fn is_name(name: &Vec<char>, lit: &str) -> (r: bool)
    ensures
        r == (name@ == lit@),
{
    let l = chars_of(lit);
    eq_chars(name, &l)
}

fn is_block_name_exec(name: &Vec<char>) -> (r: bool)
    ensures
        r == is_block_name(name@),
{
    is_name(name, "br") || is_name(name, "p") || is_name(name, "div") || is_name(name, "li")
        || is_name(name, "tr") || is_name(name, "h1") || is_name(name, "h2") || is_name(name, "h3")
        || is_name(name, "h4") || is_name(name, "ul") || is_name(name, "ol")
}

fn is_alnum_exec(c: char) -> (r: bool)
    ensures
        r == is_alnum(c),
{
    ('0' <= c && c <= '9') || ('a' <= c && c <= 'z') || ('A' <= c && c <= 'Z')
}

/// The element name of a tag, given what stands between `<` and `>`.
fn tag_name_exec(tag: &Vec<char>) -> (r: Vec<char>)
    ensures
        r@ == tag_name(tag@),
{
    let t = trim_chars(tag);
    let mut a: usize = 0;
    while a < t.len() && t[a] == '/'
        invariant
            a <= t.len(),
            forall|k: int| 0 <= k < a ==> #[trigger] t@[k] == '/',
        decreases t.len() - a,
    {
        a = a + 1;
    }
    proof {
        lemma_strip_slashes(t@, a as int);
    }
    let s = slice_chars(&t, a, t.len());
    assert(s@ =~= t@.skip(a as int));
    let mut b: usize = 0;
    while b < s.len() && is_alnum_exec(s[b])
        invariant
            b <= s.len(),
            forall|k: int| 0 <= k < b ==> is_alnum(#[trigger] s@[k]),
        decreases s.len() - b,
    {
        b = b + 1;
    }
    proof {
        lemma_alnum_prefix(s@, b as int);
    }
    let p = slice_chars(&s, 0, b);
    assert(p@ =~= s@.take(b as int));
    lower_chars(&p)
}

/// The text of `v` outside tags, with a newline for each block-level tag.
fn strip_tags_chars(v: &Vec<char>) -> (r: Vec<char>)
    ensures
        r@ == strip_tags(v@),
{
    let mut out: Vec<char> = Vec::new();
    let mut i: usize = 0;
    assert(v@.skip(0) =~= v@);
    while i < v.len()
        invariant
            i <= v.len(),
            strip_tags(v@) == out@ + strip_tags(v@.skip(i as int)),
        decreases v.len() - i,
    {
        let ghost rest = v@.skip(i as int);
        if v[i] == '<' {
            let j = find_char_from(v, '>', i + 1);
            let tag = slice_chars(v, i + 1, j);
            let name = tag_name_exec(&tag);
            let block = is_block_name_exec(&name);
            proof {
                let body = rest.skip(1);
                assert(body =~= v@.skip(i + 1));
                let k = span_until(body, '>');
                assert(k == j - (i + 1));
                assert(body.take(k as int) =~= tag@);
                if k < body.len() {
                    assert(body.skip(k + 1int) =~= v@.skip(j + 1));
                }
            }
            if block {
                out.push('\n');
            }
            if j < v.len() {
                i = j + 1;
            } else {
                i = v.len();
                assert(v@.skip(i as int).len() == 0);
            }
        } else {
            assert(rest.skip(1) =~= v@.skip(i + 1));
            out.push(v[i]);
            i = i + 1;
        }
    }
    assert(v@.skip(i as int).len() == 0);
    assert(out@ + seq![] =~= out@);
    out
}

// ---------------------------------------------------------------------------
// Entities
// ---------------------------------------------------------------------------

fn replace_lit(v: &Vec<char>, pat: &str, rep: &str) -> (r: Vec<char>)
    requires
        pat@.len() > 0,
    ensures
        r@ == replace_all(v@, pat@, rep@),
{
    let p = chars_of(pat);
    let q = chars_of(rep);
    replace_all_chars(v, &p, &q)
}

fn unescape_chars(v: &Vec<char>) -> (r: Vec<char>)
    ensures
        r@ == unescape_spec(v@),
{
    proof {
        reveal_strlit("&lt;");
        reveal_strlit("&gt;");
        reveal_strlit("&quot;");
        reveal_strlit("&#39;");
        reveal_strlit("&apos;");
        reveal_strlit("&nbsp;");
        reveal_strlit("&amp;");
    }
    let s1 = replace_lit(v, "&lt;", "<");
    let s2 = replace_lit(&s1, "&gt;", ">");
    let s3 = replace_lit(&s2, "&quot;", "\"");
    let s4 = replace_lit(&s3, "&#39;", "'");
    let s5 = replace_lit(&s4, "&apos;", "'");
    let s6 = replace_lit(&s5, "&nbsp;", " ");
    replace_lit(&s6, "&amp;", "&")
}

/// Decodes the HTML entities `&lt;`, `&gt;`, `&quot;`, `&#39;`, `&apos;`,
/// `&nbsp;` and `&amp;`, in that order.
pub fn unescape(s: &str) -> (r: String)
    ensures
        r@ == unescape_spec(s@),
{
    let v = chars_of(s);
    let u = unescape_chars(&v);
    string_of(&u)
}

// ---------------------------------------------------------------------------
// Lines
// ---------------------------------------------------------------------------

proof fn lemma_split_lines_step(s: Seq<char>, i: int, j: int)
    requires
        0 <= i < j <= s.len() || (0 <= i && i == j && j < s.len()),
        forall|k: int| i <= k < j ==> #[trigger] s[k] != '\n',
        j == s.len() || s[j] == '\n',
    ensures
        j < s.len() ==> split_lines(s.skip(i)) == seq![s.subrange(i, j)] + split_lines(
            s.skip(j + 1),
        ),
        j == s.len() ==> split_lines(s.skip(i)) == seq![s.subrange(i, j)],
{
    let rest = s.skip(i);
    assert forall|k: int| 0 <= k < j - i implies #[trigger] rest[k] != '\n' by {
        assert(rest[k] == s[i + k]);
    }
    lemma_span_until(rest, '\n', j - i);
    assert(rest.take(j - i) =~= s.subrange(i, j));
    if j < s.len() {
        assert(rest.skip(j - i + 1) =~= s.skip(j + 1));
    } else {
        assert(rest =~= s.subrange(i, j));
    }
}

/// Lays out `v` line by line.
fn layout_chars(v: &Vec<char>) -> (r: Vec<char>)
    ensures
        r@ == layout(split_lines(v@), false),
{
    let mut out: Vec<char> = Vec::new();
    let mut i: usize = 0;
    let mut blank = false;
    assert(v@.skip(0) =~= v@);
    while i < v.len()
        invariant
            i <= v.len(),
            layout(split_lines(v@), false) == out@ + layout(split_lines(v@.skip(i as int)), blank),
        decreases v.len() - i,
    {
        let j = find_char_from(v, '\n', i);
        proof {
            lemma_split_lines_step(v@, i as int, j as int);
        }
        let raw = slice_chars(v, i, j);
        let ghost lines = split_lines(v@.skip(i as int));
        assert(lines[0] == raw@);
        assert(lines.drop_first() =~= (if j < v.len() {
            split_lines(v@.skip(j + 1))
        } else {
            seq![]
        }));
        let line = trim_end_chars(&raw);
        let whole = trim_chars(&line);
        if whole.len() == 0 {
            if !blank {
                out.push('\n');
            } else {
                assert(out@ + seq![] =~= out@);
            }
            blank = true;
        } else {
            blank = false;
            let body = trim_start_chars(&line);
            push_all(&mut out, &body);
            out.push('\n');
        }
        if j < v.len() {
            i = j + 1;
        } else {
            i = v.len();
            assert(split_lines(v@.skip(i as int)) =~= seq![]);
        }
    }
    assert(split_lines(v@.skip(i as int)) =~= Seq::<Seq<char>>::empty());
    assert(out@ + seq![] =~= out@);
    out
}

/// Strips HTML to readable text: block and break tags become newlines, other
/// tags are dropped, entities are decoded, lines are trimmed, and runs of blank
/// lines collapse to one.
pub fn html_to_text(html: &str) -> (r: String)
    ensures
        r@ == html_text(html@),
{
    let v = chars_of(html);
    let stripped = strip_tags_chars(&v);
    let unescaped = unescape_chars(&stripped);
    let laid = layout_chars(&unescaped);
    string_of(&laid)
}

// ---------------------------------------------------------------------------
// Laws
// ---------------------------------------------------------------------------

/// `l` holds no newline.
pub open spec fn no_newline(l: Seq<char>) -> bool {
    forall|k: int| 0 <= k < l.len() ==> #[trigger] l[k] != '\n'
}

pub(crate) proof fn lemma_trim_start_is_suffix(s: Seq<char>)
    ensures
        trim_start(s).len() <= s.len(),
        trim_start(s) =~= s.skip(s.len() - trim_start(s).len()),
        trim_start(s).len() > 0 ==> !is_space(trim_start(s)[0]),
    decreases s.len(),
{
    if s.len() > 0 && is_space(s[0]) {
        lemma_trim_start_is_suffix(s.drop_first());
    }
}

pub(crate) proof fn lemma_trim_end_is_prefix(s: Seq<char>)
    ensures
        trim_end(s).len() <= s.len(),
        trim_end(s) =~= s.take(trim_end(s).len() as int),
        trim_end(s).len() > 0 ==> !is_space(trim_end(s).last()),
    decreases s.len(),
{
    if s.len() > 0 && is_space(s.last()) {
        lemma_trim_end_is_prefix(s.drop_last());
    }
}

proof fn lemma_split_lines_no_newline(s: Seq<char>)
    ensures
        forall|i: int| 0 <= i < split_lines(s).len() ==> no_newline(#[trigger] split_lines(s)[i]),
    decreases s.len(),
{
    if s.len() > 0 {
        let k = span_until(s, '\n');
        lemma_span_until_bound(s, '\n');
        if k < s.len() {
            lemma_split_lines_no_newline(s.skip(k + 1int));
            let lines = split_lines(s);
            assert forall|i: int| 0 <= i < lines.len() implies no_newline(#[trigger] lines[i]) by {
                if i > 0 {
                    assert(lines[i] == split_lines(s.skip(k + 1int))[i - 1]);
                }
            }
        }
    }
}

proof fn lemma_layout_shape(lines: Seq<Seq<char>>, after_blank: bool)
    requires
        forall|i: int| 0 <= i < lines.len() ==> no_newline(#[trigger] lines[i]),
    ensures
        no_triple_newline(layout(lines, after_blank)),
        !(layout(lines, after_blank).len() >= 2 && layout(lines, after_blank)[0] == '\n'
            && layout(lines, after_blank)[1] == '\n'),
        after_blank ==> !(layout(lines, after_blank).len() >= 1 && layout(lines, after_blank)[0]
            == '\n'),
    decreases lines.len(),
{
    if lines.len() > 0 {
        let rest = lines.drop_first();
        assert forall|i: int| 0 <= i < rest.len() implies no_newline(#[trigger] rest[i]) by {
            assert(rest[i] == lines[i + 1]);
        }
        let line = trim_end(lines[0]);
        lemma_trim_end_is_prefix(lines[0]);
        lemma_trim_start_is_suffix(line);
        let out = layout(lines, after_blank);
        if trim(line).len() == 0 {
            lemma_layout_shape(rest, true);
            let r = layout(rest, true);
            if !after_blank {
                assert(out == seq!['\n'] + r);
                assert forall|i: int| 0 <= i && i + 2 < out.len() implies !(#[trigger] out[i]
                    == '\n' && out[i + 1] == '\n' && out[i + 2] == '\n') by {
                    if i > 0 {
                        assert(out[i] == r[i - 1]);
                        assert(out[i + 1] == r[i]);
                        assert(out[i + 2] == r[i + 1]);
                    } else {
                        assert(out[1] == r[0]);
                    }
                }
                if out.len() >= 2 {
                    assert(out[1] == r[0]);
                }
            } else {
                assert(out =~= r);
            }
        } else {
            lemma_layout_shape(rest, false);
            let r = layout(rest, false);
            let t = trim_start(line);
            assert(t.len() > 0);
            assert(no_newline(t)) by {
                assert forall|k: int| 0 <= k < t.len() implies #[trigger] t[k] != '\n' by {
                    let off = line.len() - t.len();
                    assert(t[k] == line[off + k]);
                    assert(line[off + k] == lines[0][off + k]);
                }
            }
            let tn = t + seq!['\n'];
            assert(out == tn + r);
            assert(out[0] == t[0]);
            assert forall|i: int| 0 <= i && i + 2 < out.len() implies !(#[trigger] out[i] == '\n'
                && out[i + 1] == '\n' && out[i + 2] == '\n') by {
                if i < t.len() {
                    assert(out[i] == t[i]);
                } else if i == t.len() {
                    assert(out[i + 1] == r[0]);
                    assert(out[i + 2] == r[1]);
                } else {
                    let j = i - t.len() - 1;
                    assert(out[i] == r[j]);
                    assert(out[i + 1] == r[j + 1]);
                    assert(out[i + 2] == r[j + 2]);
                }
            }
        }
    }
}

/// Runs of blank lines collapse: the rendered text of any HTML body never
/// holds three newlines in a row.
pub proof fn html_text_has_no_triple_newline(html: Seq<char>)
    ensures
        no_triple_newline(html_text(html)),
{
    let u = unescape_spec(strip_tags(html));
    lemma_split_lines_no_newline(u);
    lemma_layout_shape(split_lines(u), false);
}

/// An ASCII letter or digit, written out.
pub open spec fn plain_word(w: Seq<char>) -> bool {
    &&& w.len() > 0
    &&& forall|i: int|
        0 <= i < w.len() ==> ('a' <= #[trigger] w[i] && w[i] <= 'z') || ('A' <= w[i] && w[i] <= 'Z')
            || ('0' <= w[i] && w[i] <= '9')
}

/// A lower-case tag name: ASCII lower-case letters and digits, written out.
pub open spec fn lower_tag(w: Seq<char>) -> bool {
    &&& w.len() > 0
    &&& forall|i: int|
        0 <= i < w.len() ==> ('a' <= #[trigger] w[i] && w[i] <= 'z') || ('0' <= w[i] && w[i] <= '9')
}

/// `t` holds no `c`.
pub open spec fn lacks(t: Seq<char>, c: char) -> bool {
    forall|i: int| 0 <= i < t.len() ==> #[trigger] t[i] != c
}

proof fn lemma_strip_plain(t: Seq<char>, r: Seq<char>)
    requires
        lacks(t, '<'),
    ensures
        strip_tags(t + r) == t + strip_tags(r),
    decreases t.len(),
{
    if t.len() > 0 {
        let tr = t + r;
        assert(tr[0] == t[0]);
        assert(tr.skip(1) =~= t.skip(1) + r);
        lemma_strip_plain(t.skip(1), r);
        assert(t =~= seq![t[0]] + t.skip(1));
        assert(seq![t[0]] + (t.skip(1) + strip_tags(r)) =~= t + strip_tags(r));
    } else {
        assert(t + r =~= r);
        assert(t + strip_tags(r) =~= strip_tags(r));
    }
}

proof fn lemma_strip_tag(tag: Seq<char>, r: Seq<char>)
    requires
        lacks(tag, '>'),
    ensures
        strip_tags(seq!['<'] + tag + seq!['>'] + r) == (if is_block_name(tag_name(tag)) {
            seq!['\n']
        } else {
            seq![]
        }) + strip_tags(r),
{
    let s = seq!['<'] + tag + seq!['>'] + r;
    let body = s.skip(1);
    assert(body =~= tag + seq!['>'] + r);
    assert forall|k: int| 0 <= k < tag.len() implies #[trigger] body[k] != '>' by {
        assert(body[k] == tag[k]);
    }
    assert(body[tag.len() as int] == '>');
    lemma_span_until(body, '>', tag.len() as int);
    assert(body.take(tag.len() as int) =~= tag);
    assert(body.skip(tag.len() + 1int) =~= r);
}

proof fn lemma_trim_plain(w: Seq<char>)
    requires
        w.len() > 0,
        !is_space(w[0]),
        !is_space(w.last()),
    ensures
        trim_start(w) == w,
        trim_end(w) == w,
        trim(w) == w,
{
}

proof fn lemma_tag_name_of_lower_tag(name: Seq<char>)
    requires
        lower_tag(name),
    ensures
        tag_name(name) == name,
        tag_name(seq!['/'] + name) == name,
{
    lemma_trim_plain(name);
    let sl = seq!['/'] + name;
    assert(sl.last() == name.last());
    lemma_trim_plain(sl);
    lemma_strip_slashes(name, 0);
    assert(name.skip(0) =~= name);
    assert forall|k: int| 0 <= k < 1 implies #[trigger] sl[k] == '/' by {}
    lemma_strip_slashes(sl, 1);
    assert(sl.skip(1) =~= name);
    assert forall|k: int| 0 <= k < name.len() implies is_alnum(#[trigger] name[k]) by {}
    lemma_alnum_prefix(name, name.len() as int);
    assert(name.take(name.len() as int) =~= name);
    assert(lower(name) =~= name) by {
        assert forall|k: int| 0 <= k < name.len() implies #[trigger] lower(name)[k] == name[k] by {
            assert(lower(name)[k] == lower_char(name[k]));
        }
    }
}

proof fn lemma_replace_absent(s: Seq<char>, pat: Seq<char>, rep: Seq<char>)
    requires
        pat.len() > 0,
        pat[0] == '&',
        lacks(s, '&'),
    ensures
        replace_all(s, pat, rep) == s,
    decreases s.len(),
{
    if s.len() > 0 {
        assert(!starts_with(s, pat)) by {
            if starts_with(s, pat) {
                assert(s.subrange(0, pat.len() as int)[0] == s[0]);
            }
        }
        lemma_replace_absent(s.skip(1), pat, rep);
        assert(s =~= seq![s[0]] + s.skip(1));
    }
}

proof fn lemma_unescape_absent(s: Seq<char>)
    requires
        lacks(s, '&'),
    ensures
        unescape_spec(s) == s,
{
    reveal_strlit("&lt;");
    reveal_strlit("&gt;");
    reveal_strlit("&quot;");
    reveal_strlit("&#39;");
    reveal_strlit("&apos;");
    reveal_strlit("&nbsp;");
    reveal_strlit("&amp;");
    lemma_replace_absent(s, "&lt;"@, "<"@);
    lemma_replace_absent(s, "&gt;"@, ">"@);
    lemma_replace_absent(s, "&quot;"@, "\""@);
    lemma_replace_absent(s, "&#39;"@, "'"@);
    lemma_replace_absent(s, "&apos;"@, "'"@);
    lemma_replace_absent(s, "&nbsp;"@, " "@);
    lemma_replace_absent(s, "&amp;"@, "&"@);
}

proof fn lemma_split_line(t: Seq<char>, r: Seq<char>)
    requires
        lacks(t, '\n'),
    ensures
        split_lines(t + seq!['\n'] + r) == seq![t] + split_lines(r),
{
    let s = t + seq!['\n'] + r;
    assert forall|k: int| 0 <= k < t.len() implies #[trigger] s[k] != '\n' by {
        assert(s[k] == t[k]);
    }
    lemma_span_until(s, '\n', t.len() as int);
    assert(s.take(t.len() as int) =~= t);
    assert(s.skip(t.len() + 1int) =~= r);
}

proof fn lemma_plain_word(w: Seq<char>)
    requires
        plain_word(w),
    ensures
        lacks(w, '<'),
        lacks(w, '&'),
        lacks(w, '\n'),
        lacks(w, '>'),
        trim_start(w) == w,
        trim_end(w) == w,
        trim(w) == w,
{
    lemma_trim_plain(w);
}

proof fn lemma_lacks_concat(a: Seq<char>, b: Seq<char>, c: char)
    requires
        lacks(a, c),
        lacks(b, c),
    ensures
        lacks(a + b, c),
{
    assert forall|i: int| 0 <= i < (a + b).len() implies #[trigger] (a + b)[i] != c by {
        if i < a.len() {
            assert((a + b)[i] == a[i]);
        } else {
            assert((a + b)[i] == b[i - a.len()]);
        }
    }
}

proof fn lemma_layout_word(w: Seq<char>, rest: Seq<Seq<char>>, after_blank: bool)
    requires
        plain_word(w),
    ensures
        layout(seq![w] + rest, after_blank) == w + seq!['\n'] + layout(rest, false),
{
    lemma_plain_word(w);
    let lines = seq![w] + rest;
    assert(lines[0] == w);
    assert(lines.drop_first() =~= rest);
}

proof fn lemma_layout_blank(rest: Seq<Seq<char>>, after_blank: bool)
    ensures
        layout(seq![Seq::<char>::empty()] + rest, after_blank) == (if after_blank {
            Seq::<char>::empty()
        } else {
            seq!['\n']
        }) + layout(rest, true),
{
    let e = Seq::<char>::empty();
    let lines = seq![e] + rest;
    assert(lines[0] == e);
    assert(trim_end(e) =~= e);
    assert(trim(e) =~= e);
    assert(lines.drop_first() =~= rest);
}

/// `w` wrapped in the element `name`, followed by `r`.
pub open spec fn wrapped(name: Seq<char>, w: Seq<char>, r: Seq<char>) -> Seq<char> {
    seq!['<'] + name + seq!['>'] + w + seq!['<', '/'] + name + seq!['>'] + r
}

proof fn lemma_strip_wrapped(name: Seq<char>, w: Seq<char>, r: Seq<char>)
    requires
        lower_tag(name),
        plain_word(w),
    ensures
        strip_tags(wrapped(name, w, r)) == (if is_block_name(name) {
            seq!['\n']
        } else {
            seq![]
        }) + w + (if is_block_name(name) {
            seq!['\n']
        } else {
            seq![]
        }) + strip_tags(r),
{
    lemma_tag_name_of_lower_tag(name);
    let close = seq!['/'] + name;
    assert(lacks(name, '>'));
    assert(lacks(close, '>'));
    lemma_plain_word(w);
    let t2 = seq!['<'] + close + seq!['>'] + r;
    lemma_strip_tag(close, r);
    lemma_strip_plain(w, t2);
    lemma_strip_tag(name, w + t2);
    assert(wrapped(name, w, r) =~= seq!['<'] + name + seq!['>'] + (w + t2));
}

proof fn lemma_strip_two_items(name: Seq<char>, a: Seq<char>, b: Seq<char>)
    requires
        lower_tag(name),
        is_block_name(name),
        plain_word(a),
        plain_word(b),
    ensures
        strip_tags(
            seq!['<'] + name + seq!['>'] + a + seq!['<', '/'] + name + seq!['>'] + seq!['<'] + name
                + seq!['>'] + b + seq!['<', '/'] + name + seq!['>'],
        ) == seq!['\n'] + a + seq!['\n'] + seq!['\n'] + b + seq!['\n'],
{
    let e: Seq<char> = seq![];
    let nl = seq!['\n'];
    lemma_strip_wrapped(name, b, e);
    assert(strip_tags(e) =~= e);
    let second = wrapped(name, b, e);
    lemma_strip_wrapped(name, a, second);
    let input = seq!['<'] + name + seq!['>'] + a + seq!['<', '/'] + name + seq!['>'] + seq!['<']
        + name + seq!['>'] + b + seq!['<', '/'] + name + seq!['>'];
    assert(input =~= wrapped(name, a, second));
    assert(nl + a + nl + (nl + b + nl + e) =~= nl + a + nl + nl + b + nl);
}

proof fn lemma_two_lines_layout(a: Seq<char>, b: Seq<char>)
    requires
        plain_word(a),
        plain_word(b),
    ensures
        layout(split_lines(seq!['\n'] + a + seq!['\n'] + seq!['\n'] + b + seq!['\n']), false)
            == seq!['\n'] + a + seq!['\n'] + seq!['\n'] + b + seq!['\n'],
{
    lemma_plain_word(a);
    lemma_plain_word(b);
    let nl = seq!['\n'];
    let e: Seq<char> = seq![];
    assert(lacks(e, '\n'));
    let stripped = nl + a + nl + nl + b + nl;
    lemma_split_line(e, a + nl + nl + b + nl);
    assert(stripped =~= e + nl + (a + nl + nl + b + nl));
    lemma_split_line(a, nl + b + nl);
    assert(a + nl + nl + b + nl =~= a + nl + (nl + b + nl));
    lemma_split_line(e, b + nl);
    assert(nl + b + nl =~= e + nl + (b + nl));
    lemma_split_line(b, e);
    assert(b + nl =~= b + nl + e);
    assert(split_lines(e) =~= Seq::<Seq<char>>::empty());
    let l4 = seq![b] + Seq::<Seq<char>>::empty();
    let l3 = seq![e] + l4;
    let l2 = seq![a] + l3;
    let l1 = seq![e] + l2;
    assert(split_lines(stripped) =~= l1);
    lemma_layout_word(b, Seq::<Seq<char>>::empty(), true);
    lemma_layout_blank(l4, false);
    lemma_layout_word(a, l3, true);
    lemma_layout_blank(l2, false);
    assert(layout(Seq::<Seq<char>>::empty(), false) =~= e);
    assert(layout(l1, false) =~= stripped);
}

/// Each element of the original's list of line-breaking tags (`br`, `p`,
/// `div`, `li`, `tr`, `h1` to `h4`, `ul`, `ol`), opening or closing, renders as
/// a line break: two words each wrapped in such an element come out on lines
/// of their own, separated by one empty line.
pub proof fn listed_tags_break_lines(name: Seq<char>, a: Seq<char>, b: Seq<char>)
    requires
        name == "br"@ || name == "p"@ || name == "div"@ || name == "li"@ || name == "tr"@ || name
            == "h1"@ || name == "h2"@ || name == "h3"@ || name == "h4"@ || name == "ul"@ || name
            == "ol"@,
        plain_word(a),
        plain_word(b),
    ensures
        html_text(
            seq!['<'] + name + seq!['>'] + a + seq!['<', '/'] + name + seq!['>'] + seq!['<'] + name
                + seq!['>'] + b + seq!['<', '/'] + name + seq!['>'],
        ) == seq!['\n'] + a + seq!['\n', '\n'] + b + seq!['\n'],
{
    reveal_strlit("br");
    reveal_strlit("p");
    reveal_strlit("div");
    reveal_strlit("li");
    reveal_strlit("tr");
    reveal_strlit("h1");
    reveal_strlit("h2");
    reveal_strlit("h3");
    reveal_strlit("h4");
    reveal_strlit("ul");
    reveal_strlit("ol");
    assert(lower_tag(name));
    assert(is_block_name(name));
    lemma_strip_two_items(name, a, b);
    let nl = seq!['\n'];
    let stripped = nl + a + nl + nl + b + nl;
    lemma_plain_word(a);
    lemma_plain_word(b);
    lemma_lacks_concat(nl, a, '&');
    lemma_lacks_concat(nl + a, nl, '&');
    lemma_lacks_concat(nl + a + nl, nl, '&');
    lemma_lacks_concat(nl + a + nl + nl, b, '&');
    lemma_lacks_concat(nl + a + nl + nl + b, nl, '&');
    lemma_unescape_absent(stripped);
    lemma_two_lines_layout(a, b);
    assert(seq!['\n'] + a + seq!['\n', '\n'] + b + seq!['\n'] =~= stripped);
}

/// Any other element, opening or closing, is dropped without a line break: a
/// word wrapped in it comes out as that word on one line.
pub proof fn other_tags_are_dropped(name: Seq<char>, a: Seq<char>)
    requires
        lower_tag(name),
        !(name == "br"@ || name == "p"@ || name == "div"@ || name == "li"@ || name == "tr"@ || name
            == "h1"@ || name == "h2"@ || name == "h3"@ || name == "h4"@ || name == "ul"@ || name
            == "ol"@),
        plain_word(a),
    ensures
        html_text(seq!['<'] + name + seq!['>'] + a + seq!['<', '/'] + name + seq!['>']) == a
            + seq!['\n'],
{
    assert(!is_block_name(name));
    lemma_plain_word(a);
    let e: Seq<char> = seq![];
    lemma_strip_wrapped(name, a, e);
    assert(strip_tags(e) =~= e);
    let input = seq!['<'] + name + seq!['>'] + a + seq!['<', '/'] + name + seq!['>'];
    assert(input =~= wrapped(name, a, e));
    assert(Seq::<char>::empty() + a + Seq::<char>::empty() + e =~= a);
    assert(strip_tags(input) =~= a);
    lemma_unescape_absent(a);
    let nl = seq!['\n'];
    lemma_split_line(a, e);
    assert(a + nl + e =~= a + nl);
    assert(split_lines(e) =~= Seq::<Seq<char>>::empty());
    // a holds no newline, so it is a single line
    assert forall|j: int| 0 <= j < a.len() implies #[trigger] a[j] != '\n' by {}
    lemma_span_until(a, '\n', a.len() as int);
    assert(split_lines(a) =~= seq![a] + Seq::<Seq<char>>::empty());
    lemma_layout_word(a, Seq::<Seq<char>>::empty(), false);
    assert(layout(Seq::<Seq<char>>::empty(), false) =~= e);
    assert(a + nl + e =~= a + nl);
}

proof fn lemma_replace_after_plain(a: Seq<char>, r: Seq<char>, pat: Seq<char>, rep: Seq<char>)
    requires
        pat.len() > 0,
        pat[0] == '&',
        lacks(a, '&'),
    ensures
        replace_all(a + r, pat, rep) == a + replace_all(r, pat, rep),
    decreases a.len(),
{
    if a.len() > 0 {
        let s = a + r;
        assert(!starts_with(s, pat)) by {
            if starts_with(s, pat) {
                assert(s.subrange(0, pat.len() as int)[0] == s[0]);
            }
        }
        assert(s.skip(1) =~= a.skip(1) + r);
        lemma_replace_after_plain(a.skip(1), r, pat, rep);
        assert(a =~= seq![a[0]] + a.skip(1));
    } else {
        assert(a + r =~= r);
    }
}

/// One replacement pass over a text that holds one entity `x` between two
/// stretches without `&`: the entity is replaced when it is the pattern, and
/// left alone when the two differ at position `k`.
proof fn lemma_replace_one_entity(
    a: Seq<char>,
    x: Seq<char>,
    b: Seq<char>,
    pat: Seq<char>,
    rep: Seq<char>,
    k: int,
)
    requires
        pat.len() > 0,
        pat[0] == '&',
        x.len() > 0,
        x[0] == '&',
        lacks(x.skip(1), '&'),
        lacks(a, '&'),
        lacks(b, '&'),
        x == pat || (0 <= k < x.len() && k < pat.len() && x[k] != pat[k]),
    ensures
        replace_all(a + x + b, pat, rep) == if x == pat {
            a + rep + b
        } else {
            a + x + b
        },
{
    lemma_replace_after_plain(a, x + b, pat, rep);
    assert(a + x + b =~= a + (x + b));
    let r = x + b;
    if x == pat {
        assert(starts_with(r, pat)) by {
            assert(r.subrange(0, pat.len() as int) =~= pat);
        }
        assert(r.skip(pat.len() as int) =~= b);
        lemma_replace_absent(b, pat, rep);
        assert(a + (rep + b) =~= a + rep + b);
    } else {
        assert(!starts_with(r, pat)) by {
            if starts_with(r, pat) {
                assert(r.subrange(0, pat.len() as int)[k] == r[k]);
                assert(r[k] == x[k]);
            }
        }
        let t = r.skip(1);
        assert(t =~= x.skip(1) + b);
        lemma_lacks_concat(x.skip(1), b, '&');
        lemma_replace_absent(t, pat, rep);
        assert(r =~= seq![r[0]] + t);
    }
}

proof fn lemma_entity_lt(a: Seq<char>, b: Seq<char>)
    requires
        lacks(a, '&'),
        lacks(b, '&'),
    ensures
        unescape_spec(a + "&lt;"@ + b) == a + "<"@ + b,
{
    reveal_strlit("&lt;");
    reveal_strlit("&gt;");
    reveal_strlit("&quot;");
    reveal_strlit("&#39;");
    reveal_strlit("&apos;");
    reveal_strlit("&nbsp;");
    reveal_strlit("&amp;");
    reveal_strlit("<");
    let e = "&lt;"@;
    let c = "<"@;
    assert(lacks(e.skip(1), '&'));
    let p = a + c + b;
    lemma_lacks_concat(a, c, '&');
    lemma_lacks_concat(a + c, b, '&');
    lemma_replace_one_entity(a, e, b, "&lt;"@, "<"@, 0);
    lemma_replace_absent(p, "&gt;"@, ">"@);
    lemma_replace_absent(p, "&quot;"@, "\""@);
    lemma_replace_absent(p, "&#39;"@, "'"@);
    lemma_replace_absent(p, "&apos;"@, "'"@);
    lemma_replace_absent(p, "&nbsp;"@, " "@);
    lemma_replace_absent(p, "&amp;"@, "&"@);
}

proof fn lemma_entity_gt(a: Seq<char>, b: Seq<char>)
    requires
        lacks(a, '&'),
        lacks(b, '&'),
    ensures
        unescape_spec(a + "&gt;"@ + b) == a + ">"@ + b,
{
    reveal_strlit("&lt;");
    reveal_strlit("&gt;");
    reveal_strlit("&quot;");
    reveal_strlit("&#39;");
    reveal_strlit("&apos;");
    reveal_strlit("&nbsp;");
    reveal_strlit("&amp;");
    reveal_strlit(">");
    let e = "&gt;"@;
    let c = ">"@;
    assert(lacks(e.skip(1), '&'));
    let p = a + c + b;
    lemma_lacks_concat(a, c, '&');
    lemma_lacks_concat(a + c, b, '&');
    assert(e != "&lt;"@) by {
        assert(e[1] != "&lt;"@[1]);
    }
    lemma_replace_one_entity(a, e, b, "&lt;"@, "<"@, 1);
    let s1 = replace_all(a + e + b, "&lt;"@, "<"@);
    assert(s1 == a + e + b);
    lemma_replace_one_entity(a, e, b, "&gt;"@, ">"@, 0);
    let s2 = replace_all(s1, "&gt;"@, ">"@);
    assert(s2 == p);
    lemma_replace_absent(p, "&quot;"@, "\""@);
    lemma_replace_absent(p, "&#39;"@, "'"@);
    lemma_replace_absent(p, "&apos;"@, "'"@);
    lemma_replace_absent(p, "&nbsp;"@, " "@);
    lemma_replace_absent(p, "&amp;"@, "&"@);
}

proof fn lemma_entity_quot(a: Seq<char>, b: Seq<char>)
    requires
        lacks(a, '&'),
        lacks(b, '&'),
    ensures
        unescape_spec(a + "&quot;"@ + b) == a + "\""@ + b,
{
    reveal_strlit("&lt;");
    reveal_strlit("&gt;");
    reveal_strlit("&quot;");
    reveal_strlit("&#39;");
    reveal_strlit("&apos;");
    reveal_strlit("&nbsp;");
    reveal_strlit("&amp;");
    reveal_strlit("\"");
    let e = "&quot;"@;
    let c = "\""@;
    assert(lacks(e.skip(1), '&'));
    let p = a + c + b;
    lemma_lacks_concat(a, c, '&');
    lemma_lacks_concat(a + c, b, '&');
    lemma_replace_one_entity(a, e, b, "&lt;"@, "<"@, 1);
    lemma_replace_one_entity(a, e, b, "&gt;"@, ">"@, 1);
    lemma_replace_one_entity(a, e, b, "&quot;"@, "\""@, 0);
    lemma_replace_absent(p, "&#39;"@, "'"@);
    lemma_replace_absent(p, "&apos;"@, "'"@);
    lemma_replace_absent(p, "&nbsp;"@, " "@);
    lemma_replace_absent(p, "&amp;"@, "&"@);
}

proof fn lemma_entity_apos39(a: Seq<char>, b: Seq<char>)
    requires
        lacks(a, '&'),
        lacks(b, '&'),
    ensures
        unescape_spec(a + "&#39;"@ + b) == a + "'"@ + b,
{
    reveal_strlit("&lt;");
    reveal_strlit("&gt;");
    reveal_strlit("&quot;");
    reveal_strlit("&#39;");
    reveal_strlit("&apos;");
    reveal_strlit("&nbsp;");
    reveal_strlit("&amp;");
    reveal_strlit("'");
    let e = "&#39;"@;
    let c = "'"@;
    assert(lacks(e.skip(1), '&'));
    let p = a + c + b;
    lemma_lacks_concat(a, c, '&');
    lemma_lacks_concat(a + c, b, '&');
    lemma_replace_one_entity(a, e, b, "&lt;"@, "<"@, 1);
    lemma_replace_one_entity(a, e, b, "&gt;"@, ">"@, 1);
    lemma_replace_one_entity(a, e, b, "&quot;"@, "\""@, 1);
    lemma_replace_one_entity(a, e, b, "&#39;"@, "'"@, 0);
    lemma_replace_absent(p, "&apos;"@, "'"@);
    lemma_replace_absent(p, "&nbsp;"@, " "@);
    lemma_replace_absent(p, "&amp;"@, "&"@);
}

proof fn lemma_entity_apos(a: Seq<char>, b: Seq<char>)
    requires
        lacks(a, '&'),
        lacks(b, '&'),
    ensures
        unescape_spec(a + "&apos;"@ + b) == a + "'"@ + b,
{
    reveal_strlit("&lt;");
    reveal_strlit("&gt;");
    reveal_strlit("&quot;");
    reveal_strlit("&#39;");
    reveal_strlit("&apos;");
    reveal_strlit("&nbsp;");
    reveal_strlit("&amp;");
    reveal_strlit("'");
    let e = "&apos;"@;
    let c = "'"@;
    assert(lacks(e.skip(1), '&'));
    let p = a + c + b;
    lemma_lacks_concat(a, c, '&');
    lemma_lacks_concat(a + c, b, '&');
    lemma_replace_one_entity(a, e, b, "&lt;"@, "<"@, 1);
    lemma_replace_one_entity(a, e, b, "&gt;"@, ">"@, 1);
    lemma_replace_one_entity(a, e, b, "&quot;"@, "\""@, 1);
    lemma_replace_one_entity(a, e, b, "&#39;"@, "'"@, 1);
    lemma_replace_one_entity(a, e, b, "&apos;"@, "'"@, 0);
    lemma_replace_absent(p, "&nbsp;"@, " "@);
    lemma_replace_absent(p, "&amp;"@, "&"@);
}

proof fn lemma_entity_nbsp(a: Seq<char>, b: Seq<char>)
    requires
        lacks(a, '&'),
        lacks(b, '&'),
    ensures
        unescape_spec(a + "&nbsp;"@ + b) == a + " "@ + b,
{
    reveal_strlit("&lt;");
    reveal_strlit("&gt;");
    reveal_strlit("&quot;");
    reveal_strlit("&#39;");
    reveal_strlit("&apos;");
    reveal_strlit("&nbsp;");
    reveal_strlit("&amp;");
    reveal_strlit(" ");
    let e = "&nbsp;"@;
    let c = " "@;
    assert(lacks(e.skip(1), '&'));
    let p = a + c + b;
    lemma_lacks_concat(a, c, '&');
    lemma_lacks_concat(a + c, b, '&');
    lemma_replace_one_entity(a, e, b, "&lt;"@, "<"@, 1);
    lemma_replace_one_entity(a, e, b, "&gt;"@, ">"@, 1);
    lemma_replace_one_entity(a, e, b, "&quot;"@, "\""@, 1);
    lemma_replace_one_entity(a, e, b, "&#39;"@, "'"@, 1);
    lemma_replace_one_entity(a, e, b, "&apos;"@, "'"@, 1);
    lemma_replace_one_entity(a, e, b, "&nbsp;"@, " "@, 0);
    lemma_replace_absent(p, "&amp;"@, "&"@);
}

proof fn lemma_entity_amp(a: Seq<char>, b: Seq<char>)
    requires
        lacks(a, '&'),
        lacks(b, '&'),
    ensures
        unescape_spec(a + "&amp;"@ + b) == a + "&"@ + b,
{
    reveal_strlit("&lt;");
    reveal_strlit("&gt;");
    reveal_strlit("&quot;");
    reveal_strlit("&#39;");
    reveal_strlit("&apos;");
    reveal_strlit("&nbsp;");
    reveal_strlit("&amp;");
    reveal_strlit("&");
    let e = "&amp;"@;
    let c = "&"@;
    assert(lacks(e.skip(1), '&'));
    let p = a + c + b;
    lemma_replace_one_entity(a, e, b, "&lt;"@, "<"@, 1);
    lemma_replace_one_entity(a, e, b, "&gt;"@, ">"@, 1);
    lemma_replace_one_entity(a, e, b, "&quot;"@, "\""@, 1);
    lemma_replace_one_entity(a, e, b, "&#39;"@, "'"@, 1);
    lemma_replace_one_entity(a, e, b, "&apos;"@, "'"@, 2);
    lemma_replace_one_entity(a, e, b, "&nbsp;"@, " "@, 1);
    lemma_replace_one_entity(a, e, b, "&amp;"@, "&"@, 0);
}

/// Each entity decodes to its character, once: between stretches of text
/// without `&`, the entity becomes its character and nothing else changes. In
/// particular an escaped entity such as `&amp;lt;` decodes to `&lt;` and not
/// further.
pub proof fn entities_decode_once(a: Seq<char>, e: Seq<char>, c: Seq<char>, b: Seq<char>)
    requires
        lacks(a, '&'),
        lacks(b, '&'),
        (e == "&lt;"@ && c == "<"@)
            || (e == "&gt;"@ && c == ">"@)
            || (e == "&quot;"@ && c == "\""@)
            || (e == "&#39;"@ && c == "'"@)
            || (e == "&apos;"@ && c == "'"@)
            || (e == "&nbsp;"@ && c == " "@)
            || (e == "&amp;"@ && c == "&"@),
    ensures
        unescape_spec(a + e + b) == a + c + b,
{
    if e == "&lt;"@ && c == "<"@ {
        lemma_entity_lt(a, b);
    } else if e == "&gt;"@ && c == ">"@ {
        lemma_entity_gt(a, b);
    } else if e == "&quot;"@ && c == "\""@ {
        lemma_entity_quot(a, b);
    } else if e == "&#39;"@ && c == "'"@ {
        lemma_entity_apos39(a, b);
    } else if e == "&apos;"@ && c == "'"@ {
        lemma_entity_apos(a, b);
    } else if e == "&nbsp;"@ && c == " "@ {
        lemma_entity_nbsp(a, b);
    } else if e == "&amp;"@ && c == "&"@ {
        lemma_entity_amp(a, b);
    }
}

} // verus!

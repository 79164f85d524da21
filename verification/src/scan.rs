//! Reading a fetched response: which language its text is in, where a phrase
//! occurs, the text around an occurrence, and whether the response is a
//! Cloudflare block page.
use vstd::prelude::*;
use vstd::utf8::{
    decode_utf8, encode_utf8, is_char_boundary, is_char_boundary_iff_not_is_continuation_byte,
    is_char_boundary_start_end_of_seq, valid_utf8, encode_utf8_valid_utf8,
    encode_utf8_decode_utf8, valid_utf8_split,
};
use vstd::string::StringSliceAdditionalSpecFns;
use crate::html::{lemma_trim_end_is_prefix, lemma_trim_start_is_suffix};
use crate::text::{chars_of, contains, is_space, lower_char, occurs_at, trim_end, trim_start, contains_exec, lower, lower_chars, string_of, trim, trim_chars};

verus! {

// ---------------------------------------------------------------------------
// Language of a text
// ---------------------------------------------------------------------------

/// A precomposed Hangul syllable (U+AC00 to U+D7A3).
pub open spec fn is_hangul(c: char) -> bool {
    '\u{AC00}' <= c && c <= '\u{D7A3}'
}

/// An ASCII letter.
pub open spec fn is_latin(c: char) -> bool {
    ('a' <= c && c <= 'z') || ('A' <= c && c <= 'Z')
}

/// Number of Hangul syllables in `s`.
pub open spec fn count_hangul(s: Seq<char>) -> nat
    decreases s.len(),
{
    if s.len() == 0 {
        0
    } else {
        count_hangul(s.drop_last()) + if is_hangul(s.last()) {
            1nat
        } else {
            0nat
        }
    }
}

/// Number of ASCII letters in `s`.
pub open spec fn count_latin(s: Seq<char>) -> nat
    decreases s.len(),
{
    if s.len() == 0 {
        0
    } else {
        count_latin(s.drop_last()) + if is_latin(s.last()) {
            1nat
        } else {
            0nat
        }
    }
}

/// `"ko"` when `s` holds more Hangul syllables than ASCII letters, else `"en"`.
pub open spec fn detected_lang(s: Seq<char>) -> Seq<char> {
    if count_hangul(s) > count_latin(s) {
        "ko"@
    } else {
        "en"@
    }
}

proof fn lemma_counts_bound(s: Seq<char>)
    ensures
        count_hangul(s) + count_latin(s) <= s.len(),
    decreases s.len(),
{
    if s.len() > 0 {
        lemma_counts_bound(s.drop_last());
    }
}

/// Language label by dominant script: more Hangul than Latin letters gives
/// `"ko"`, anything else `"en"`.
pub fn detect_lang(s: &str) -> (r: &'static str)
    ensures
        r@ == detected_lang(s@),
{
    let v = chars_of(s);
    let mut ko: usize = 0;
    let mut en: usize = 0;
    let n = v.len();
    for i in 0..n
        invariant
            n == v.len(),
            ko == count_hangul(v@.take(i as int)),
            en == count_latin(v@.take(i as int)),
    {
        proof {
            assert(v@.take(i + 1).drop_last() =~= v@.take(i as int));
            lemma_counts_bound(v@.take(i as int));
        }
        let c = v[i];
        if '\u{AC00}' <= c && c <= '\u{D7A3}' {
            ko = ko + 1;
        } else if ('a' <= c && c <= 'z') || ('A' <= c && c <= 'Z') {
            en = en + 1;
        }
    }
    assert(v@.take(n as int) =~= v@);
    if ko > en {
        "ko"
    } else {
        "en"
    }
}

/// A precomposed Hangul syllable, written out.
pub open spec fn hangul_char(c: char) -> bool {
    '\u{AC00}' <= c && c <= '\u{D7A3}'
}

/// An ASCII letter, written out.
pub open spec fn ascii_letter(c: char) -> bool {
    ('a' <= c && c <= 'z') || ('A' <= c && c <= 'Z')
}

proof fn lemma_counts_concat(a: Seq<char>, b: Seq<char>)
    ensures
        count_hangul(a + b) == count_hangul(a) + count_hangul(b),
        count_latin(a + b) == count_latin(a) + count_latin(b),
    decreases b.len(),
{
    if b.len() == 0 {
        assert(a + b =~= a);
    } else {
        lemma_counts_concat(a, b.drop_last());
        assert((a + b).drop_last() =~= a + b.drop_last());
        assert((a + b).last() == b.last());
    }
}

proof fn lemma_counts_single(c: char)
    ensures
        count_hangul(seq![c]) == (if hangul_char(c) { 1nat } else { 0nat }),
        count_latin(seq![c]) == (if ascii_letter(c) { 1nat } else { 0nat }),
{
    let e = Seq::<char>::empty();
    assert(seq![c].drop_last() =~= e);
    assert(seq![c].last() == c);
    assert(count_hangul(e) == 0);
    assert(count_latin(e) == 0);
    assert(count_hangul(seq![c]) == count_hangul(e) + if is_hangul(c) { 1nat } else { 0nat });
    assert(count_latin(seq![c]) == count_latin(e) + if is_latin(c) { 1nat } else { 0nat });
}

/// A character that is neither a Hangul syllable nor an ASCII letter (a digit,
/// a space, punctuation, a newline, any other script) never changes the
/// detected language: inserting it anywhere keeps the result.
pub proof fn detect_lang_ignores_other_chars(a: Seq<char>, b: Seq<char>, c: char)
    requires
        !hangul_char(c),
        !ascii_letter(c),
    ensures
        detected_lang(a + seq![c] + b) == detected_lang(a + b),
{
    lemma_counts_concat(a, seq![c]);
    lemma_counts_concat(a + seq![c], b);
    lemma_counts_concat(a, b);
    lemma_counts_single(c);
}

proof fn lemma_no_letters(s: Seq<char>)
    requires
        forall|i: int| 0 <= i < s.len() ==> !ascii_letter(#[trigger] s[i]),
    ensures
        count_latin(s) == 0,
    decreases s.len(),
{
    if s.len() > 0 {
        assert(!ascii_letter(s[s.len() - 1]));
        lemma_no_letters(s.drop_last());
    }
}

proof fn lemma_no_hangul(s: Seq<char>)
    requires
        forall|i: int| 0 <= i < s.len() ==> !hangul_char(#[trigger] s[i]),
    ensures
        count_hangul(s) == 0,
    decreases s.len(),
{
    if s.len() > 0 {
        assert(!hangul_char(s[s.len() - 1]));
        lemma_no_hangul(s.drop_last());
    }
}

proof fn lemma_count_one(s: Seq<char>, i: int)
    requires
        0 <= i < s.len(),
    ensures
        hangul_char(s[i]) ==> count_hangul(s) >= 1,
        ascii_letter(s[i]) ==> count_latin(s) >= 1,
{
    lemma_counts_concat(s.take(i), s.skip(i));
    assert(s =~= s.take(i) + s.skip(i));
    lemma_counts_concat(seq![s[i]], s.skip(i + 1));
    assert(s.skip(i) =~= seq![s[i]] + s.skip(i + 1));
    lemma_counts_single(s[i]);
}

/// A text with a Hangul syllable and no ASCII letter reads as Korean; a text
/// with an ASCII letter and no Hangul syllable reads as English.
pub proof fn detect_lang_by_script_alone(s: Seq<char>)
    ensures
        (exists|i: int| 0 <= i < s.len() && hangul_char(#[trigger] s[i])) && (forall|i: int|
            0 <= i < s.len() ==> !ascii_letter(#[trigger] s[i])) ==> detected_lang(s) == "ko"@,
        (exists|i: int| 0 <= i < s.len() && ascii_letter(#[trigger] s[i])) && (forall|i: int|
            0 <= i < s.len() ==> !hangul_char(#[trigger] s[i])) ==> detected_lang(s) == "en"@,
{
    if (exists|i: int| 0 <= i < s.len() && hangul_char(#[trigger] s[i])) && (forall|i: int|
        0 <= i < s.len() ==> !ascii_letter(#[trigger] s[i])) {
        let i = choose|i: int| 0 <= i < s.len() && hangul_char(#[trigger] s[i]);
        lemma_count_one(s, i);
        lemma_no_letters(s);
    }
    if (exists|i: int| 0 <= i < s.len() && ascii_letter(#[trigger] s[i])) && (forall|i: int|
        0 <= i < s.len() ==> !hangul_char(#[trigger] s[i])) {
        let i = choose|i: int| 0 <= i < s.len() && ascii_letter(#[trigger] s[i]);
        lemma_count_one(s, i);
        lemma_no_hangul(s);
    }
}

// ---------------------------------------------------------------------------
// Case-insensitive search
// ---------------------------------------------------------------------------

/// ASCII upper-case byte mapped to lower case; other bytes unchanged.
pub open spec fn lower_byte(b: u8) -> u8 {
    if 65 <= b && b <= 90 {
        (b + 32) as u8
    } else {
        b
    }
}

/// The bytes of `n` occur in `h` at offset `i`, ignoring ASCII case.
pub open spec fn matches_ci_at(h: Seq<u8>, n: Seq<u8>, i: int) -> bool {
    &&& 0 <= i
    &&& i + n.len() <= h.len()
    &&& forall|j: int| 0 <= j < n.len() ==> lower_byte(#[trigger] h[i + j]) == lower_byte(n[j])
}

/// The offsets below `end` at which `n` matches `h`, in increasing order.
pub open spec fn ci_hits_below(h: Seq<u8>, n: Seq<u8>, end: int) -> Seq<usize>
    decreases end,
{
    if end <= 0 {
        seq![]
    } else if matches_ci_at(h, n, end - 1) {
        ci_hits_below(h, n, end - 1).push((end - 1) as usize)
    } else {
        ci_hits_below(h, n, end - 1)
    }
}

/// The offsets at which a non-empty `n` matches `h`, ignoring ASCII case, in
/// increasing order; none for an empty `n`.
pub open spec fn ci_hits(h: Seq<u8>, n: Seq<u8>) -> Seq<usize> {
    if n.len() == 0 || h.len() < n.len() {
        seq![]
    } else {
        ci_hits_below(h, n, h.len() - n.len() + 1)
    }
}

fn lower_byte_exec(b: u8) -> (r: u8)
    ensures
        r == lower_byte(b),
{
    if 65 <= b && b <= 90 {
        b + 32
    } else {
        b
    }
}

/// Case-insensitive (ASCII) substring search; the result holds byte offsets
/// into the UTF-8 encoding of `haystack`, in increasing order.
pub fn find_ci_ascii(haystack: &str, needle: &str) -> (r: Vec<usize>)
    ensures
        r@ == ci_hits(haystack.spec_bytes(), needle.spec_bytes()),
{
    let h = haystack.as_bytes();
    let n = needle.as_bytes();
    let mut out: Vec<usize> = Vec::new();
    if n.len() == 0 || h.len() < n.len() {
        return out;
    }
    let hl = h.len();
    let last = hl - n.len();
    let mut i: usize = 0;
    while i <= last
        invariant
            last == h@.len() - n@.len(),
            last < h@.len(),
            hl == h@.len(),
            n@.len() > 0,
            i <= last + 1,
            out@ == ci_hits_below(h@, n@, i as int),
        decreases last + 1 - i,
    {
        let mut j: usize = 0;
        let mut ok = true;
        while j < n.len() && ok
            invariant
                last == h@.len() - n@.len(),
                last < h@.len(),
                hl == h@.len(),
                i <= last,
                j <= n@.len(),
                ok ==> forall|k: int| 0 <= k < j ==> lower_byte(#[trigger] h@[i + k]) == lower_byte(
                    n@[k],
                ),
                !ok ==> !matches_ci_at(h@, n@, i as int),
            decreases n@.len() - j + (if ok {
                1int
            } else {
                0int
            }),
        {
            if lower_byte_exec(h[i + j]) != lower_byte_exec(n[j]) {
                assert(lower_byte(h@[i + j]) != lower_byte(n@[j as int]));
                ok = false;
            } else {
                j = j + 1;
            }
        }
        proof {
            if ok {
                assert(matches_ci_at(h@, n@, i as int));
            }
        }
        if ok {
            out.push(i);
        }
        i = i + 1;
    }
    out
}

/// Every offset of `ci_hits` is a match, the offsets strictly increase, and
/// every offset at which a non-empty needle matches is among them.
pub proof fn ci_hits_are_exactly_the_matches(h: Seq<u8>, n: Seq<u8>)
    requires
        h.len() <= usize::MAX,
    ensures
        forall|k: int|
            0 <= k < ci_hits(h, n).len() ==> matches_ci_at(h, n, #[trigger] ci_hits(h, n)[k] as int),
        forall|k1: int, k2: int|
            0 <= k1 < k2 < ci_hits(h, n).len() ==> #[trigger] ci_hits(h, n)[k1]
                < #[trigger] ci_hits(h, n)[k2],
        n.len() > 0 ==> forall|i: int|
            #[trigger] matches_ci_at(h, n, i) ==> ci_hits(h, n).contains(i as usize),
{
    if n.len() > 0 && h.len() >= n.len() {
        lemma_hits_below(h, n, h.len() - n.len() + 1);
    }
}

proof fn lemma_hits_below(h: Seq<u8>, n: Seq<u8>, end: int)
    requires
        0 <= end <= h.len() - n.len() + 1,
        end <= usize::MAX,
    ensures
        forall|k: int|
            0 <= k < ci_hits_below(h, n, end).len() ==> matches_ci_at(
                h,
                n,
                #[trigger] ci_hits_below(h, n, end)[k] as int,
            ),
        forall|k: int|
            0 <= k < ci_hits_below(h, n, end).len() ==> #[trigger] ci_hits_below(h, n, end)[k]
                < end,
        forall|k1: int, k2: int|
            0 <= k1 < k2 < ci_hits_below(h, n, end).len() ==> #[trigger] ci_hits_below(h, n, end)[k1]
                < #[trigger] ci_hits_below(h, n, end)[k2],
        forall|i: int|
            0 <= i < end && #[trigger] matches_ci_at(h, n, i) ==> ci_hits_below(h, n, end).contains(
                i as usize,
            ),
    decreases end,
{
    if end > 0 {
        lemma_hits_below(h, n, end - 1);
        let prev = ci_hits_below(h, n, end - 1);
        if matches_ci_at(h, n, end - 1) {
            let cur = prev.push((end - 1) as usize);
            assert forall|i: int| 0 <= i < end && #[trigger] matches_ci_at(h, n, i) implies cur.contains(
                i as usize,
            ) by {
                if i < end - 1 {
                    let k = choose|k: int| 0 <= k < prev.len() && prev[k] == i as usize;
                    assert(cur[k] == i as usize);
                } else {
                    assert(cur[prev.len() as int] == i as usize);
                }
            }
        }
    }
}

/// The byte `b` with an ASCII upper-case letter lowered, written out.
pub open spec fn folded(b: u8) -> int {
    if 65 <= b && b <= 90 {
        b + 32
    } else {
        b as int
    }
}

/// Every offset returned is one where each byte of the phrase equals the
/// text's byte there, ASCII letters compared without case; and every offset
/// where a non-empty phrase matches so is returned.
pub proof fn find_ci_ascii_compares_every_byte(h: Seq<u8>, n: Seq<u8>)
    requires
        h.len() <= usize::MAX,
    ensures
        forall|k: int|
            0 <= k < ci_hits(h, n).len() ==> {
                &&& n.len() > 0
                &&& #[trigger] ci_hits(h, n)[k] + n.len() <= h.len()
                &&& forall|j: int|
                    0 <= j < n.len() ==> folded(#[trigger] h[ci_hits(h, n)[k] + j]) == folded(n[j])
            },
        forall|o: usize|
            o + n.len() <= h.len() && n.len() > 0 && (forall|j: int|
                0 <= j < n.len() ==> folded(#[trigger] h[o + j]) == folded(n[j])) ==> #[trigger] ci_hits(
                h,
                n,
            ).contains(o),
{
    ci_hits_are_exactly_the_matches(h, n);
    assert forall|x: u8| #[trigger] folded(x) == lower_byte(x) as int by {}
    assert forall|k: int| 0 <= k < ci_hits(h, n).len() implies {
        &&& n.len() > 0
        &&& #[trigger] ci_hits(h, n)[k] + n.len() <= h.len()
        &&& forall|j: int|
            0 <= j < n.len() ==> folded(#[trigger] h[ci_hits(h, n)[k] + j]) == folded(n[j])
    } by {
        let o = ci_hits(h, n)[k] as int;
        assert(matches_ci_at(h, n, o));
        assert(n.len() > 0);
        assert forall|j: int| 0 <= j < n.len() implies folded(#[trigger] h[o + j]) == folded(n[j]) by {
            assert(lower_byte(h[o + j]) == lower_byte(n[j]));
        }
    }
    assert forall|o: usize|
        o + n.len() <= h.len() && n.len() > 0 && (forall|j: int|
            0 <= j < n.len() ==> folded(#[trigger] h[o + j]) == folded(n[j])) implies #[trigger] ci_hits(
        h,
        n,
    ).contains(o) by {
        assert forall|j: int| 0 <= j < n.len() implies lower_byte(#[trigger] h[o + j]) == lower_byte(n[j]) by {
            assert(folded(h[o + j]) == folded(n[j]));
        }
        assert(matches_ci_at(h, n, o as int));
    }
}

/// A phrase found in a text always starts on a character boundary, so the
/// offsets can be used to slice the text.
pub proof fn ci_hits_are_char_boundaries(haystack: Seq<char>, needle: Seq<char>)
    requires
        encode_utf8(haystack).len() <= usize::MAX,
    ensures
        forall|k: int|
            0 <= k < ci_hits(encode_utf8(haystack), encode_utf8(needle)).len() ==> is_char_boundary(
                encode_utf8(haystack),
                #[trigger] ci_hits(encode_utf8(haystack), encode_utf8(needle))[k] as int,
            ),
{
    let h = encode_utf8(haystack);
    let n = encode_utf8(needle);
    ci_hits_are_exactly_the_matches(h, n);
    encode_utf8_valid_utf8(haystack);
    encode_utf8_valid_utf8(needle);
    assert forall|k: int| 0 <= k < ci_hits(h, n).len() implies is_char_boundary(
        h,
        #[trigger] ci_hits(h, n)[k] as int,
    ) by {
        let i = ci_hits(h, n)[k] as int;
        assert(matches_ci_at(h, n, i));
        assert(n.len() > 0);
        is_char_boundary_start_end_of_seq(n);
        is_char_boundary_iff_not_is_continuation_byte(n, 0);
        assert(lower_byte(h[i + 0]) == lower_byte(n[0]));
        is_char_boundary_iff_not_is_continuation_byte(h, i);
    }
}

// ---------------------------------------------------------------------------
// Context around an offset
// ---------------------------------------------------------------------------

/// The greatest character boundary of `b` at or below `k` (0 below 0).
pub open spec fn floor_boundary(b: Seq<u8>, k: int) -> int
    decreases k,
{
    if k <= 0 {
        0
    } else if is_char_boundary(b, k) {
        k
    } else {
        floor_boundary(b, k - 1)
    }
}

/// The least character boundary of `b` at or above `k`, or `k` itself from the
/// end of `b` on.
pub open spec fn ceil_boundary(b: Seq<u8>, k: int) -> int
    decreases b.len() - k,
{
    if k >= b.len() || is_char_boundary(b, k) {
        k
    } else {
        ceil_boundary(b, k + 1)
    }
}

/// `s` with every `'\n'` and `'\r'` replaced by a space.
pub open spec fn flatten_newlines(s: Seq<char>) -> Seq<char> {
    s.map_values(|c: char| if c == '\n' || c == '\r' { ' ' } else { c })
}

/// The text of `s` from `pad` bytes before byte offset `at` to `pad` bytes after
/// the `len` bytes at `at`, widened to character boundaries and clipped to `s`,
/// on one line and trimmed.
pub open spec fn context_spec(s: Seq<char>, at: int, len: int, pad: int) -> Seq<char> {
    let b = encode_utf8(s);
    let start = floor_boundary(b, if at >= pad { at - pad } else { 0 });
    let end = ceil_boundary(
        b,
        if at + len + pad <= b.len() {
            at + len + pad
        } else {
            b.len() as int
        },
    );
    trim(flatten_newlines(decode_utf8(b.subrange(start, end))))
}

proof fn lemma_floor_boundary(b: Seq<u8>, k: int)
    requires
        valid_utf8(b),
    ensures
        is_char_boundary(b, floor_boundary(b, k)),
        0 <= floor_boundary(b, k),
        k >= 0 ==> floor_boundary(b, k) <= k,
        floor_boundary(b, k) <= b.len(),
    decreases k,
{
    is_char_boundary_start_end_of_seq(b);
    if k > 0 && !is_char_boundary(b, k) {
        lemma_floor_boundary(b, k - 1);
    }
}

proof fn lemma_ceil_boundary(b: Seq<u8>, k: int)
    requires
        valid_utf8(b),
        0 <= k <= b.len(),
    ensures
        is_char_boundary(b, ceil_boundary(b, k)),
        k <= ceil_boundary(b, k) <= b.len(),
    decreases b.len() - k,
{
    is_char_boundary_start_end_of_seq(b);
    if k < b.len() && !is_char_boundary(b, k) {
        lemma_ceil_boundary(b, k + 1);
    }
}

proof fn lemma_boundary_in_prefix(b: Seq<u8>, start: int, end: int)
    requires
        valid_utf8(b),
        0 <= start <= end <= b.len(),
        is_char_boundary(b, start),
        is_char_boundary(b, end),
    ensures
        valid_utf8(b.subrange(0, end)),
        is_char_boundary(b.subrange(0, end), start),
{
    valid_utf8_split(b, end);
    let p = b.subrange(0, end);
    if start < end {
        is_char_boundary_iff_not_is_continuation_byte(b, start);
        is_char_boundary_iff_not_is_continuation_byte(p, start);
    } else {
        is_char_boundary_start_end_of_seq(p);
    }
}

/// The context of a hit for display: `pad` bytes on either side of the `len`
/// bytes at `at`, widened to whole characters, newlines flattened, trimmed.
pub fn context(s: &str, at: usize, len: usize, pad: usize) -> (r: String)
    requires
        at + len + pad <= usize::MAX,
    ensures
        r@ == context_spec(s@, at as int, len as int, pad as int),
{
    let ghost b = s.spec_bytes();
    proof {
        encode_utf8_valid_utf8(s@);
        encode_utf8_decode_utf8(s@);
    }
    let blen = s.as_bytes().len();
    let mut start = at.saturating_sub(pad);
    let ghost start0 = start as int;
    while start > 0 && !s.is_char_boundary(start)
        invariant
            floor_boundary(b, start0) == floor_boundary(b, start as int),
            b == s.spec_bytes(),
            valid_utf8(b),
        decreases start,
    {
        start = start - 1;
    }
    let total = at + len + pad;
    let mut end = if total < blen {
        total
    } else {
        blen
    };
    let ghost end0 = end as int;
    while end < blen && !s.is_char_boundary(end)
        invariant
            blen == b.len(),
            ceil_boundary(b, end0) == ceil_boundary(b, end as int),
            b == s.spec_bytes(),
            valid_utf8(b),
            end <= b.len(),
        decreases b.len() - end,
    {
        end = end + 1;
    }
    proof {
        lemma_floor_boundary(b, start0);
        lemma_ceil_boundary(b, end0);
        assert(start as int == floor_boundary(b, start0));
        assert(end as int == ceil_boundary(b, end0));
        if at as int <= b.len() {
            assert(start0 <= at);
        }
        assert(start <= end);
        lemma_boundary_in_prefix(b, start as int, end as int);
    }
    let (left, _) = s.split_at(end);
    let (_, mid) = left.split_at(start);
    proof {
        assert(mid.spec_bytes() =~= b.subrange(start as int, end as int));
        encode_utf8_decode_utf8(mid@);
    }
    let v = chars_of(mid);
    let mut flat: Vec<char> = Vec::new();
    let n = v.len();
    for i in 0..n
        invariant
            n == v.len(),
            flat@ == flatten_newlines(v@.take(i as int)),
    {
        let c = v[i];
        let d = if c == '\n' || c == '\r' {
            ' '
        } else {
            c
        };
        flat.push(d);
        assert(flatten_newlines(v@.take(i + 1)) =~= flatten_newlines(v@.take(i as int)).push(d));
    }
    assert(v@.take(n as int) =~= v@);
    let t = trim_chars(&flat);
    string_of(&t)
}

// ---------------------------------------------------------------------------
// Truncation
// ---------------------------------------------------------------------------

/// `s` itself when it has at most `max` chars, else its first `max` chars
/// followed by an ellipsis.
pub open spec fn truncated(s: Seq<char>, max: int) -> Seq<char> {
    if s.len() <= max {
        s
    } else {
        s.take(max).push('…')
    }
}

/// Cuts `s` to `max` chars, marking a cut with `'…'`.
pub fn truncate(s: &str, max: usize) -> (r: String)
    ensures
        r@ == truncated(s@, max as int),
{
    let v = chars_of(s);
    if v.len() <= max {
        return string_of(&v);
    }
    let mut t: Vec<char> = Vec::new();
    for i in 0..max
        invariant
            max < v.len(),
            t@ == v@.take(i as int),
    {
        t.push(v[i]);
        assert(v@.take(i + 1) =~= v@.take(i as int).push(v@[i as int]));
    }
    t.push('…');
    string_of(&t)
}

// ---------------------------------------------------------------------------
// Block pages
// ---------------------------------------------------------------------------

/// The response reads, ignoring ASCII case, like a Cloudflare block or
/// challenge page.
pub open spec fn is_block_page(body: Seq<char>) -> bool {
    let b = lower(body);
    ||| contains(b, "attention required"@)
    ||| contains(b, "cf-error-details"@)
    ||| (contains(b, "cloudflare"@) && contains(b, "blocked"@))
}

fn contains_lit(v: &Vec<char>, lit: &str) -> (r: bool)
    ensures
        r == contains(v@, lit@),
{
    let p = chars_of(lit);
    contains_exec(v, &p)
}

/// Whether the response looks like a Cloudflare block or challenge page.
pub fn looks_like_cloudflare_block(body: &str) -> (r: bool)
    ensures
        r == is_block_page(body@),
{
    let v = chars_of(body);
    let b = lower_chars(&v);
    contains_lit(&b, "attention required") || contains_lit(&b, "cf-error-details") || (
    contains_lit(&b, "cloudflare") && contains_lit(&b, "blocked"))
}

// ---------------------------------------------------------------------------
// Laws on context, truncation and block pages
// ---------------------------------------------------------------------------

/// The context shown for a hit is one line of text: it holds no newline or
/// carriage return, and neither begins nor ends with whitespace.
pub proof fn context_is_one_trimmed_line(s: Seq<char>, at: int, len: int, pad: int)
    ensures
        forall|i: int|
            0 <= i < context_spec(s, at, len, pad).len() ==> #[trigger] context_spec(s, at, len, pad)[i]
                != '\n' && context_spec(s, at, len, pad)[i] != '\r',
        context_spec(s, at, len, pad).len() > 0 ==> !is_space(context_spec(s, at, len, pad)[0])
            && !is_space(context_spec(s, at, len, pad).last()),
{
    let b = encode_utf8(s);
    let start = floor_boundary(b, if at >= pad { at - pad } else { 0 });
    let end = ceil_boundary(b, if at + len + pad <= b.len() { at + len + pad } else { b.len() as int });
    let f = flatten_newlines(decode_utf8(b.subrange(start, end)));
    assert forall|i: int| 0 <= i < f.len() implies #[trigger] f[i] != '\n' && f[i] != '\r' by {}
    let y = trim_start(f);
    lemma_trim_start_is_suffix(f);
    lemma_trim_end_is_prefix(y);
    let r = trim_end(y);
    assert(r == context_spec(s, at, len, pad));
    assert forall|i: int| 0 <= i < r.len() implies #[trigger] r[i] != '\n' && r[i] != '\r' by {
        assert(r[i] == y[i]);
        assert(y[i] == f[f.len() - y.len() + i]);
    }
    if r.len() > 0 {
        assert(r[0] == y[0]);
    }
}

/// A cut text keeps its first `max` chars and gains one ellipsis; a text that
/// fits is kept whole. Either way the result has at most `max + 1` chars.
pub proof fn truncate_keeps_the_start(s: Seq<char>, max: nat)
    ensures
        truncated(s, max as int).len() <= max + 1,
        s.len() <= max ==> truncated(s, max as int) == s,
        s.len() > max ==> truncated(s, max as int).len() == max + 1 && truncated(s, max as int).take(
            max as int,
        ) == s.take(max as int) && truncated(s, max as int).last() == '…',
{
    if s.len() > max {
        assert(truncated(s, max as int).take(max as int) =~= s.take(max as int));
    }
}

proof fn lemma_lower_concat(a: Seq<char>, b: Seq<char>)
    ensures
        lower(a + b) == lower(a) + lower(b),
{
    assert(lower(a + b) =~= lower(a) + lower(b)) by {
        assert forall|i: int| 0 <= i < (a + b).len() implies #[trigger] lower(a + b)[i] == (lower(a)
            + lower(b))[i] by {
            if i < a.len() {
                assert((a + b)[i] == a[i]);
            } else {
                assert((a + b)[i] == b[i - a.len()]);
            }
        }
    }
}

proof fn lemma_occurs_in_middle(a: Seq<char>, p: Seq<char>, b: Seq<char>)
    ensures
        contains(a + p + b, p),
{
    assert((a + p + b).subrange(a.len() as int, a.len() + p.len() as int) =~= p);
    assert(occurs_at(a + p + b, p, a.len() as int));
}

/// Whatever surrounds them and in any ASCII case, the phrases "attention
/// required" and "cf-error-details" mark a block page.
pub proof fn block_page_phrases(a: Seq<char>, p: Seq<char>, b: Seq<char>)
    requires
        lower(p) == "attention required"@ || lower(p) == "cf-error-details"@,
    ensures
        is_block_page(a + p + b),
{
    lemma_lower_concat(a + p, b);
    lemma_lower_concat(a, p);
    lemma_occurs_in_middle(lower(a), lower(p), lower(b));
}

/// "cloudflare" together with "blocked", anywhere and in any ASCII case, also
/// marks a block page.
pub proof fn block_page_cloudflare_blocked(
    a: Seq<char>,
    p: Seq<char>,
    m: Seq<char>,
    q: Seq<char>,
    b: Seq<char>,
)
    requires
        lower(p) == "cloudflare"@,
        lower(q) == "blocked"@,
    ensures
        is_block_page(a + p + m + q + b),
{
    let s = a + p + m + q + b;
    lemma_lower_concat(a + p + m + q, b);
    lemma_lower_concat(a + p + m, q);
    lemma_lower_concat(a + p, m);
    lemma_lower_concat(a, p);
    let la = lower(a);
    let lp = lower(p);
    let lm = lower(m);
    let lq = lower(q);
    let lb = lower(b);
    assert(lower(s) =~= la + lp + (lm + lq + lb));
    lemma_occurs_in_middle(la, lp, lm + lq + lb);
    assert(lower(s) =~= (la + lp + lm) + lq + lb);
    lemma_occurs_in_middle(la + lp + lm, lq, lb);
}

} // verus!

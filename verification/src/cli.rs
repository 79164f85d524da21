//! The notice checker's decisions: languages, command-line options, the URLs
//! to request, what a response says, and how the run ends.
use vstd::prelude::*;
use crate::html::{html_text, html_to_text};
use crate::json::{find_field, json_field, opt_view, parse_json, text_field};
use crate::scan::{ci_hits, detect_lang, detected_lang, find_ci_ascii};
use crate::text::{
    chars_of, concat_str, eq_str, lower, lower_char, lower_chars, push_str, slice_chars, starts_with,
    starts_with_str, string_of,
};
use vstd::string::StringSliceAdditionalSpecFns;

verus! {

// ---------------------------------------------------------------------------
// Languages
// ---------------------------------------------------------------------------

/// A language in which a notice can be requested.
#[derive(Clone, Copy, Debug, PartialEq, Eq, Structural)]
pub enum Lang {
    En,
    Ko,
}

impl Lang {
    /// The `Accept-Language` header value for this language.
    pub open spec fn accept_spec(self) -> Seq<char> {
        match self {
            Lang::En => "en-US,en;q=0.9,ko;q=0.5"@,
            Lang::Ko => "ko-KR,ko;q=0.9,en;q=0.5"@,
        }
    }

    /// The short label of this language.
    pub open spec fn label_spec(self) -> Seq<char> {
        match self {
            Lang::En => "en"@,
            Lang::Ko => "ko"@,
        }
    }

    /// `Accept-Language` header value.
    pub fn accept(self) -> (r: &'static str)
        ensures
            r@ == self.accept_spec(),
    {
        match self {
            Lang::En => "en-US,en;q=0.9,ko;q=0.5",
            Lang::Ko => "ko-KR,ko;q=0.9,en;q=0.5",
        }
    }

    /// Short label: `"en"` or `"ko"`.
    pub fn label(self) -> (r: &'static str)
        ensures
            r@ == self.label_spec(),
    {
        match self {
            Lang::En => "en",
            Lang::Ko => "ko",
        }
    }
}

/// The language a user wrote, ignoring ASCII case: `en`/`english` or
/// `ko`/`kr`/`korean`; anything else is refused with a message that names it.
pub open spec fn parse_lang_spec(s: Seq<char>) -> Result<Lang, Seq<char>> {
    let l = lower(s);
    if l == "en"@ || l == "english"@ {
        Ok(Lang::En)
    } else if l == "ko"@ || l == "kr"@ || l == "korean"@ {
        Ok(Lang::Ko)
    } else {
        Err("unknown lang '"@ + l + "' (use en|ko)"@)
    }
}

/// A result with its error message taken by its view.
pub open spec fn result_view<T>(r: Result<T, String>) -> Result<T, Seq<char>> {
    match r {
        Ok(x) => Ok(x),
        Err(e) => Err(e@),
    }
}

/// Parses a language name.
pub fn parse_lang(s: &str) -> (r: Result<Lang, String>)
    ensures
        result_view(r) == parse_lang_spec(s@),
{
    let v = chars_of(s);
    let l = string_of(&lower_chars(&v));
    let ls = l.as_str();
    if eq_str(ls, "en") || eq_str(ls, "english") {
        Ok(Lang::En)
    } else if eq_str(ls, "ko") || eq_str(ls, "kr") || eq_str(ls, "korean") {
        Ok(Lang::Ko)
    } else {
        let mut m: Vec<char> = Vec::new();
        push_str(&mut m, "unknown lang '");
        push_str(&mut m, ls);
        push_str(&mut m, "' (use en|ko)");
        Err(string_of(&m))
    }
}

/// Each language's label parses back to that language.
pub proof fn labels_parse_back(l: Lang)
    ensures
        parse_lang_spec(l.label_spec()) == Ok::<Lang, Seq<char>>(l),
{
    reveal_strlit("en");
    reveal_strlit("english");
    reveal_strlit("ko");
    let lab = l.label_spec();
    assert(lower(lab) =~= lab) by {
        assert forall|i: int| 0 <= i < lab.len() implies #[trigger] lower(lab)[i] == lab[i] by {
            assert(lower(lab)[i] == lower_char(lab[i]));
        }
    }
    match l {
        Lang::En => {
            assert(lower(lab) == "en"@);
        },
        Lang::Ko => {
            assert(lab.len() == 2 && lab[0] == 'k');
            assert(lab != "en"@) by {
                assert("en"@[0] == 'e');
            }
            assert(lab != "english"@) by {
                assert("english"@.len() == 7);
            }
            assert(lower(lab) == "ko"@);
        },
    }
}

/// Language names are read without regard to ASCII case: a name parses as its
/// lower-cased spelling does.
pub proof fn lang_names_ignore_case(s: Seq<char>)
    ensures
        parse_lang_spec(lower(s)) == parse_lang_spec(s),
{
    assert(lower(lower(s)) =~= lower(s)) by {
        assert forall|i: int| 0 <= i < s.len() implies #[trigger] lower(lower(s))[i] == lower(s)[i] by {
            let c = s[i];
            assert(lower(s)[i] == lower_char(c));
            assert(lower(lower(s))[i] == lower_char(lower_char(c)));
            if 'A' <= c && c <= 'Z' {
                assert(lower_char(c) == ((c as u32) + 32) as char);
                assert('a' <= lower_char(c));
            }
        }
    }
}

/// The `Accept-Language` header of a language names that language first.
pub proof fn accept_header_leads_with_label(l: Lang)
    ensures
        starts_with(l.accept_spec(), l.label_spec()),
{
    reveal_strlit("en");
    reveal_strlit("ko");
    reveal_strlit("en-US,en;q=0.9,ko;q=0.5");
    reveal_strlit("ko-KR,ko;q=0.9,en;q=0.5");
    assert(l.accept_spec().subrange(0, 2) =~= l.label_spec());
}

// ---------------------------------------------------------------------------
// Command line
// ---------------------------------------------------------------------------

/// What the checker was asked to do.
#[derive(Debug)]
pub struct Opts {
    /// A numeric notice id or a full URL.
    pub target: String,
    pub is_url: bool,
    pub term: String,
    pub lang: Lang,
    pub raw: bool,
    pub probe: bool,
}

/// The outcome of reading the command line.
#[derive(Debug)]
pub enum Command {
    /// Print the usage line and stop.
    Help,
    Run(Opts),
}

/// The options gathered so far while reading the command line.
pub struct ArgState {
    pub positionals: Seq<Seq<char>>,
    pub lang: Lang,
    pub raw: bool,
    pub probe: bool,
}

/// Where reading the command line ends.
pub enum ArgScan {
    Help,
    Fail(Seq<char>),
    Done(ArgState),
}

/// The options before any argument is read.
pub open spec fn initial_args() -> ArgState {
    ArgState { positionals: seq![], lang: Lang::En, raw: false, probe: false }
}

/// The arguments read in order: `--raw`, `--probe`, `-h`/`--help` (which stops
/// at once), `--lang`/`-l` followed by a language, `--lang=` with a language,
/// any other argument starting with `--` refused, every other one positional.
pub open spec fn scan_args(args: Seq<Seq<char>>, st: ArgState) -> ArgScan
    decreases args.len(),
{
    if args.len() == 0 {
        ArgScan::Done(st)
    } else {
        let a = args[0];
        if a == "--raw"@ {
            scan_args(args.drop_first(), ArgState { raw: true, ..st })
        } else if a == "--probe"@ {
            scan_args(args.drop_first(), ArgState { probe: true, ..st })
        } else if a == "-h"@ || a == "--help"@ {
            ArgScan::Help
        } else if a == "--lang"@ || a == "-l"@ {
            if args.len() < 2 {
                ArgScan::Fail("--lang needs a value (en|ko)"@)
            } else {
                match parse_lang_spec(args[1]) {
                    Ok(l) => scan_args(args.skip(2), ArgState { lang: l, ..st }),
                    Err(e) => ArgScan::Fail(e),
                }
            }
        } else if starts_with(a, "--lang="@) {
            match parse_lang_spec(a.skip(7)) {
                Ok(l) => scan_args(args.drop_first(), ArgState { lang: l, ..st }),
                Err(e) => ArgScan::Fail(e),
            }
        } else if starts_with(a, "--"@) {
            ArgScan::Fail("unknown flag "@ + a)
        } else {
            scan_args(args.drop_first(), ArgState { positionals: st.positionals.push(a), ..st })
        }
    }
}

/// The notice checked when none is named.
pub open spec fn default_id() -> Seq<char> {
    "6303"@
}

/// The phrase searched for when none is given.
pub open spec fn default_term() -> Seq<char> {
    "Market Support"@
}

/// A target that is a full URL rather than a notice id.
pub open spec fn is_url_text(s: Seq<char>) -> bool {
    starts_with(s, "http://"@) || starts_with(s, "https://"@)
}

/// `o` holds the options that reading stopped at: the first positional is the
/// target (the default notice without one), the second the phrase (the
/// default phrase without one); later positionals are ignored.
pub open spec fn opts_from(st: ArgState, o: Opts) -> bool {
    &&& o.lang == st.lang
    &&& o.raw == st.raw
    &&& o.probe == st.probe
    &&& o.target@ == if st.positionals.len() > 0 {
        st.positionals[0]
    } else {
        default_id()
    }
    &&& o.is_url == (st.positionals.len() > 0 && is_url_text(st.positionals[0]))
    &&& o.term@ == if st.positionals.len() > 1 {
        st.positionals[1]
    } else {
        default_term()
    }
}

/// The views of a sequence of strings.
pub open spec fn views(s: Seq<String>) -> Seq<Seq<char>> {
    s.map_values(|x: String| x@)
}

/// `r` is what reading `args` gives.
pub open spec fn command_of(args: Seq<Seq<char>>, r: Result<Command, String>) -> bool {
    match r {
        Ok(Command::Help) => scan_args(args, initial_args()) == ArgScan::Help,
        Err(e) => scan_args(args, initial_args()) == ArgScan::Fail(e@),
        Ok(Command::Run(o)) => scan_args(args, initial_args()) matches ArgScan::Done(st) && opts_from(
            st,
            o,
        ),
    }
}

/// Reads the command line (the arguments after the program name).
pub fn parse_args(args: &Vec<String>) -> (r: Result<Command, String>)
    ensures
        command_of(views(args@), r),
{
    let ghost av = views(args@);
    let mut positionals: Vec<String> = Vec::new();
    let mut lang = Lang::En;
    let mut raw = false;
    let mut probe = false;
    let mut i: usize = 0;
    assert(av.skip(0) =~= av);
    assert(views(positionals@) =~= seq![]);
    while i < args.len()
        invariant
            i <= args.len(),
            av == views(args@),
            scan_args(av, initial_args()) == scan_args(
                av.skip(i as int),
                ArgState { positionals: views(positionals@), lang, raw, probe },
            ),
        decreases args.len() - i,
    {
        let a = args[i].as_str();
        let ghost rest = av.skip(i as int);
        assert(rest[0] == a@);
        assert(rest.drop_first() =~= av.skip(i + 1));
        if eq_str(a, "--raw") {
            raw = true;
            i = i + 1;
        } else if eq_str(a, "--probe") {
            probe = true;
            i = i + 1;
        } else if eq_str(a, "-h") || eq_str(a, "--help") {
            return Ok(Command::Help);
        } else if eq_str(a, "--lang") || eq_str(a, "-l") {
            if i + 1 >= args.len() {
                let m = chars_of("--lang needs a value (en|ko)");
                return Err(string_of(&m));
            }
            assert(rest[1] == args@[i + 1]@);
            match parse_lang(args[i + 1].as_str()) {
                Ok(l) => {
                    lang = l;
                    assert(rest.skip(2) =~= av.skip(i + 2));
                    i = i + 2;
                },
                Err(e) => {
                    return Err(e);
                },
            }
        } else if starts_with_str(a, "--lang=") {
            proof {
                reveal_strlit("--lang=");
            }
            let v = chars_of(a);
            let tail = string_of(&slice_chars(&v, 7, v.len()));
            assert(tail@ =~= a@.skip(7));
            match parse_lang(tail.as_str()) {
                Ok(l) => {
                    lang = l;
                    i = i + 1;
                },
                Err(e) => {
                    return Err(e);
                },
            }
        } else if starts_with_str(a, "--") {
            return Err(concat_str("unknown flag ", a));
        } else {
            let p = args[i].clone();
            let ghost before = positionals@;
            positionals.push(p);
            assert(positionals@ =~= before.push(args@[i as int]));
            assert(views(positionals@) =~= views(before).push(a@));
            i = i + 1;
        }
    }
    assert(av.skip(i as int) =~= seq![]);
    let ghost st = ArgState { positionals: views(positionals@), lang, raw, probe };
    let target;
    let is_url;
    if positionals.len() > 0 {
        target = positionals[0].clone();
        is_url = starts_with_str(target.as_str(), "http://") || starts_with_str(
            target.as_str(),
            "https://",
        );
    } else {
        target = string_of(&chars_of("6303"));
        is_url = false;
    }
    let term = if positionals.len() > 1 {
        positionals[1].clone()
    } else {
        string_of(&chars_of("Market Support"))
    };
    Ok(Command::Run(Opts { target, is_url, term, lang, raw, probe }))
}

// ---------------------------------------------------------------------------
// URLs
// ---------------------------------------------------------------------------

/// The announcements endpoint for a notice id.
pub open spec fn announcement_base(id: Seq<char>) -> Seq<char> {
    "https://api-manager.upbit.com/api/v1/announcements/"@ + id
}

/// The URL that returns a notice in the given language.
pub open spec fn notice_url(id: Seq<char>, lang: Lang) -> Seq<char> {
    announcement_base(id) + "?os=web&language="@ + lang.label_spec()
}

/// The query variants tried in probe mode, in order.
pub open spec fn probe_urls(id: Seq<char>) -> Seq<Seq<char>> {
    seq![
        announcement_base(id) + "?os=web&language=en"@,
        announcement_base(id) + "?os=web&lang=en"@,
        announcement_base(id) + "?os=web&locale=en"@,
        announcement_base(id) + "?os=web&language=ko"@,
        announcement_base(id) + "?os=web"@,
    ]
}

fn url_with(id: &str, query: &str) -> (r: String)
    ensures
        r@ == announcement_base(id@) + query@,
{
    let mut v = chars_of("https://api-manager.upbit.com/api/v1/announcements/");
    push_str(&mut v, id);
    push_str(&mut v, query);
    string_of(&v)
}

/// The public share page of a notice.
pub open spec fn share_url(id: Seq<char>) -> Seq<char> {
    "https://www.upbit.com/service_center/notice?id="@ + id
}

/// The URLs tried for a notice id in search mode, in order: the JSON API in
/// the chosen language first, then the share page as a fallback.
pub open spec fn search_urls(id: Seq<char>, lang: Lang) -> Seq<Seq<char>> {
    seq![notice_url(id, lang), share_url(id)]
}

/// The URLs for a numeric id: the JSON API (`?os=web&language=<label>`
/// returns the notice in that language), then the share page.
pub fn candidates(id: &str, lang: Lang) -> (r: Vec<String>)
    ensures
        views(r@) == search_urls(id@, lang),
{
    let mut v = chars_of("https://api-manager.upbit.com/api/v1/announcements/");
    push_str(&mut v, id);
    push_str(&mut v, "?os=web&language=");
    push_str(&mut v, lang.label());
    let mut share = chars_of("https://www.upbit.com/service_center/notice?id=");
    push_str(&mut share, id);
    let mut r: Vec<String> = Vec::new();
    r.push(string_of(&v));
    r.push(string_of(&share));
    assert(views(r@) =~= search_urls(id@, lang));
    r
}

/// Every language variant of the endpoint, for probe mode.
pub fn probe_candidates(id: &str) -> (r: Vec<String>)
    ensures
        views(r@) == probe_urls(id@),
{
    let mut r: Vec<String> = Vec::new();
    r.push(url_with(id, "?os=web&language=en"));
    r.push(url_with(id, "?os=web&lang=en"));
    r.push(url_with(id, "?os=web&locale=en"));
    r.push(url_with(id, "?os=web&language=ko"));
    r.push(url_with(id, "?os=web"));
    assert(views(r@) =~= probe_urls(id@));
    r
}

/// The URLs a run requests, in order: the target itself when it is a URL,
/// else every variant in probe mode, else the JSON API in the chosen language
/// followed by the share page.
pub open spec fn request_urls_spec(o: Opts) -> Seq<Seq<char>> {
    if o.is_url {
        seq![o.target@]
    } else if o.probe {
        probe_urls(o.target@)
    } else {
        search_urls(o.target@, o.lang)
    }
}

/// The URLs to request for the given options.
pub fn request_urls(o: &Opts) -> (r: Vec<String>)
    ensures
        views(r@) == request_urls_spec(*o),
{
    if o.is_url {
        let mut r: Vec<String> = Vec::new();
        r.push(o.target.clone());
        assert(views(r@) =~= seq![o.target@]);
        r
    } else if o.probe {
        probe_candidates(o.target.as_str())
    } else {
        candidates(o.target.as_str(), o.lang)
    }
}

proof fn lemma_flag_is_no_language(x: Seq<char>)
    requires
        x == "--probe"@ || x == "--raw"@,
    ensures
        parse_lang_spec(x) is Err,
{
    reveal_strlit("--probe");
    reveal_strlit("--raw");
    reveal_strlit("en");
    reveal_strlit("english");
    reveal_strlit("ko");
    reveal_strlit("kr");
    reveal_strlit("korean");
    let l = lower(x);
    assert(l[0] == lower_char(x[0]));
    assert(l[0] == '-');
}

proof fn lemma_contains_first(args: Seq<Seq<char>>, x: Seq<char>)
    requires
        args.len() > 0,
    ensures
        args.contains(x) <==> (args[0] == x || args.drop_first().contains(x)),
{
    if args.contains(x) {
        let i = choose|i: int| 0 <= i < args.len() && args[i] == x;
        if i > 0 {
            assert(args.drop_first()[i - 1] == x);
        }
    }
    if args.drop_first().contains(x) {
        let i = choose|i: int| 0 <= i < args.drop_first().len() && args.drop_first()[i] == x;
        assert(args[i + 1] == x);
    }
    if args[0] == x {
        assert(args.contains(x));
    }
}

proof fn lemma_flags_scan(args: Seq<Seq<char>>, st: ArgState)
    ensures
        scan_args(args, st) matches ArgScan::Done(fin) ==> (fin.probe <==> (st.probe || args.contains(
            "--probe"@,
        ))) && (fin.raw <==> (st.raw || args.contains("--raw"@))),
    decreases args.len(),
{
    reveal_strlit("--probe");
    reveal_strlit("--raw");
    if args.len() > 0 {
        let a = args[0];
        let rest = args.drop_first();
        lemma_contains_first(args, "--probe"@);
        lemma_contains_first(args, "--raw"@);
        if a == "--raw"@ {
            lemma_flags_scan(rest, ArgState { raw: true, ..st });
        } else if a == "--probe"@ {
            lemma_flags_scan(rest, ArgState { probe: true, ..st });
        } else if a == "-h"@ || a == "--help"@ {
        } else if a == "--lang"@ || a == "-l"@ {
            if args.len() >= 2 {
                match parse_lang_spec(args[1]) {
                    Ok(l) => {
                        if args[1] == "--probe"@ || args[1] == "--raw"@ {
                            lemma_flag_is_no_language(args[1]);
                        }
                        lemma_flags_scan(args.skip(2), ArgState { lang: l, ..st });
                        lemma_contains_first(rest, "--probe"@);
                        lemma_contains_first(rest, "--raw"@);
                        assert(rest.drop_first() =~= args.skip(2));
                        assert(rest[0] == args[1]);
                    },
                    Err(_) => {},
                }
            }
        } else if starts_with(a, "--lang="@) {
            match parse_lang_spec(a.skip(7)) {
                Ok(l) => {
                    lemma_flags_scan(rest, ArgState { lang: l, ..st });
                },
                Err(_) => {},
            }
        } else if starts_with(a, "--"@) {
        } else {
            lemma_flags_scan(rest, ArgState { positionals: st.positionals.push(a), ..st });
        }
    }
}

/// `--probe` and `--raw` set their own flag and nothing else does: when the
/// command line is read to the end, probe mode is on exactly when `--probe` is
/// among the arguments, and the raw dump exactly when `--raw` is.
pub proof fn flags_come_only_from_their_arguments(args: Seq<Seq<char>>)
    ensures
        scan_args(args, initial_args()) matches ArgScan::Done(st) ==> (st.probe <==> args.contains(
            "--probe"@,
        )) && (st.raw <==> args.contains("--raw"@)),
{
    lemma_flags_scan(args, initial_args());
}

/// A target that is a URL is requested exactly as given, in search mode as in
/// probe mode; a notice id is requested from the JSON API in the chosen
/// language and then from its share page, or, in probe mode, from the five
/// query variants of the API.
pub proof fn requested_urls_by_target(o: Opts)
    ensures
        o.is_url ==> request_urls_spec(o) == seq![o.target@],
        !o.is_url && !o.probe ==> request_urls_spec(o) == seq![
            "https://api-manager.upbit.com/api/v1/announcements/"@ + o.target@
                + "?os=web&language="@ + (if o.lang == Lang::En {
                "en"@
            } else {
                "ko"@
            }),
            "https://www.upbit.com/service_center/notice?id="@ + o.target@,
        ],
        !o.is_url && o.probe ==> request_urls_spec(o) == seq![
            "https://api-manager.upbit.com/api/v1/announcements/"@ + o.target@
                + "?os=web&language=en"@,
            "https://api-manager.upbit.com/api/v1/announcements/"@ + o.target@ + "?os=web&lang=en"@,
            "https://api-manager.upbit.com/api/v1/announcements/"@ + o.target@ + "?os=web&locale=en"@,
            "https://api-manager.upbit.com/api/v1/announcements/"@ + o.target@
                + "?os=web&language=ko"@,
            "https://api-manager.upbit.com/api/v1/announcements/"@ + o.target@ + "?os=web"@,
        ],
{
}

// ---------------------------------------------------------------------------
// Reading a response
// ---------------------------------------------------------------------------

/// What a fetched notice says.
#[derive(Debug)]
pub struct Analysis {
    pub title: Option<String>,
    pub category: Option<String>,
    /// The body rendered as plain text.
    pub body_text: String,
    /// `"ko"` or `"en"`, by the script of the body text.
    pub body_lang: &'static str,
    /// Byte offsets of the phrase in the whole raw response.
    pub hits: Vec<usize>,
}

/// The body text of a response: its `body` field rendered as text, or
/// nothing.
pub open spec fn body_text_of(raw: Seq<char>) -> Seq<char> {
    match text_field(raw, "body"@) {
        Some(b) => html_text(b),
        None => html_text(seq![]),
    }
}

/// Reads a fetched response `raw`: its fields come from the JSON it parses to,
/// and the phrase is searched in the whole raw text, so a hit in the title, the
/// category or the body all count.
pub fn analyze(raw: &str, term: &str) -> (r: Analysis)
    ensures
        opt_view(r.title) == text_field(raw@, "title"@),
        opt_view(r.category) == text_field(raw@, "category"@),
        r.body_text@ == body_text_of(raw@),
        r.body_lang@ == detected_lang(r.body_text@),
        r.hits@ == ci_hits(raw.spec_bytes(), term.spec_bytes()),
{
    let (title, category, body) = match parse_json(raw) {
        Ok(v) => (find_field(&v, "title"), find_field(&v, "category"), find_field(&v, "body")),
        Err(_) => (None, None, None),
    };
    let body_html = match body {
        Some(b) => b,
        None => String::new(),
    };
    let body_text = html_to_text(body_html.as_str());
    let body_lang = detect_lang(body_text.as_str());
    let hits = find_ci_ascii(raw, term);
    Analysis { title, category, body_text, body_lang, hits }
}

// ---------------------------------------------------------------------------
// Choosing a response
// ---------------------------------------------------------------------------

/// The body of the response `raw` reads in `lang`.
pub open spec fn reads_in(raw: Seq<char>, lang: Lang) -> bool {
    match text_field(raw, "body"@) {
        Some(b) => detected_lang(html_text(b)) == lang.label_spec(),
        None => false,
    }
}

/// The index of the first request that was answered.
pub open spec fn first_answer(h: Seq<Option<Seq<char>>>) -> Option<int>
    decreases h.len(),
{
    if h.len() == 0 {
        None
    } else {
        match first_answer(h.drop_last()) {
            Some(i) => Some(i),
            None => if h.last() is Some {
                Some(h.len() - 1)
            } else {
                None
            },
        }
    }
}

/// The index of the first answer whose body reads in `lang`.
pub open spec fn first_in_lang(h: Seq<Option<Seq<char>>>, lang: Lang) -> Option<int>
    decreases h.len(),
{
    if h.len() == 0 {
        None
    } else {
        match first_in_lang(h.drop_last(), lang) {
            Some(i) => Some(i),
            None => if h.last() matches Some(raw) && reads_in(raw, lang) {
                Some(h.len() - 1)
            } else {
                None
            },
        }
    }
}

/// The response kept: the first one that comes back in the requested
/// language, else the first one that came back at all.
pub open spec fn chosen_response(h: Seq<Option<Seq<char>>>, lang: Lang) -> Option<int> {
    match first_in_lang(h, lang) {
        Some(i) => Some(i),
        None => first_answer(h),
    }
}

/// An optional index as an integer.
pub open spec fn opt_index(o: Option<usize>) -> Option<int> {
    match o {
        Some(i) => Some(i as int),
        None => None,
    }
}

/// The text of an optional response.
pub open spec fn opt_text(o: Option<&str>) -> Option<Seq<char>> {
    match o {
        Some(s) => Some(s@),
        None => None,
    }
}

/// The search over the candidate URLs, fed one fetch outcome at a time.
pub struct UrlSearch {
    lang: Lang,
    count: usize,
    first_ok: Option<usize>,
    in_lang: Option<usize>,
    history: Ghost<Seq<Option<Seq<char>>>>,
}

impl UrlSearch {
    /// The fetch outcomes so far, in order (`None` for a failed request).
    pub closed spec fn history(self) -> Seq<Option<Seq<char>>> {
        self.history@
    }

    /// The requested language.
    pub closed spec fn lang(self) -> Lang {
        self.lang
    }

    /// The search's fields agree with its history.
    pub closed spec fn wf(self) -> bool {
        &&& self.count == self.history@.len()
        &&& opt_index(self.first_ok) == first_answer(self.history@)
        &&& opt_index(self.in_lang) == first_in_lang(self.history@, self.lang)
    }

    /// A search for a response in `lang`, before any request.
    pub fn new(lang: Lang) -> (r: UrlSearch)
        ensures
            r.wf(),
            r.history() == Seq::<Option<Seq<char>>>::empty(),
            r.lang() == lang,
    {
        UrlSearch { lang, count: 0, first_ok: None, in_lang: None, history: Ghost(Seq::empty()) }
    }

    /// Records the outcome of the next request (`None` when it failed) and
    /// says whether to stop: a response whose body reads in the requested
    /// language ends the search.
    pub fn on_response(&mut self, raw: Option<&str>) -> (stop: bool)
        requires
            old(self).wf(),
            old(self).history().len() < usize::MAX,
        ensures
            final(self).wf(),
            final(self).history() == old(self).history().push(opt_text(raw)),
            final(self).lang() == old(self).lang(),
            stop == (raw matches Some(t) && reads_in(t@, old(self).lang())),
    {
        let ghost h = self.history@.push(opt_text(raw));
        assert(h.drop_last() =~= self.history@);
        let i = self.count;
        let stop = match raw {
            Some(t) => {
                if self.first_ok.is_none() {
                    self.first_ok = Some(i);
                }
                let yes = reads_in_exec(t, self.lang);
                if yes && self.in_lang.is_none() {
                    self.in_lang = Some(i);
                }
                yes
            },
            None => false,
        };
        self.count = i + 1;
        self.history = Ghost(h);
        stop
    }

    /// The index of the response to keep, if any request was answered.
    pub fn chosen(&self) -> (r: Option<usize>)
        requires
            self.wf(),
        ensures
            opt_index(r) == chosen_response(self.history(), self.lang()),
    {
        match self.in_lang {
            Some(i) => Some(i),
            None => self.first_ok,
        }
    }
}

/// Whether the body of `raw` reads in `lang`.
fn reads_in_exec(raw: &str, lang: Lang) -> (r: bool)
    ensures
        r == reads_in(raw@, lang),
{
    match json_field(raw, "body") {
        Some(b) => {
            let text = html_to_text(b.as_str());
            eq_str(detect_lang(text.as_str()), lang.label())
        },
        None => false,
    }
}

proof fn lemma_first_in_lang_stable(h: Seq<Option<Seq<char>>>, rest: Seq<Option<Seq<char>>>, lang: Lang)
    requires
        first_in_lang(h, lang) is Some,
    ensures
        first_in_lang(h + rest, lang) == first_in_lang(h, lang),
    decreases rest.len(),
{
    if rest.len() == 0 {
        assert(h + rest =~= h);
    } else {
        lemma_first_in_lang_stable(h, rest.drop_last(), lang);
        assert((h + rest).drop_last() =~= h + rest.drop_last());
    }
}

/// Once a response comes back in the requested language, it is the one kept,
/// whatever later candidates would have answered; so the search may stop
/// there.
pub proof fn first_response_in_language_wins(
    h: Seq<Option<Seq<char>>>,
    rest: Seq<Option<Seq<char>>>,
    lang: Lang,
)
    requires
        first_in_lang(h, lang) is Some,
    ensures
        chosen_response(h + rest, lang) == chosen_response(h, lang),
{
    lemma_first_in_lang_stable(h, rest, lang);
}

// ---------------------------------------------------------------------------
// Exit status
// ---------------------------------------------------------------------------

/// How a search run ends.
#[derive(Clone, Copy, Debug, PartialEq, Eq, Structural)]
pub enum Outcome {
    /// The phrase was found.
    Found,
    /// The page was reachable but the phrase was not found.
    NotFound,
    /// Every request failed.
    Unreachable,
}

/// The outcome of a search run, from whether a response came back and how many
/// hits it had.
pub fn outcome(fetched: bool, hits: usize) -> (r: Outcome)
    ensures
        r == (if !fetched {
            Outcome::Unreachable
        } else if hits == 0 {
            Outcome::NotFound
        } else {
            Outcome::Found
        }),
{
    if !fetched {
        Outcome::Unreachable
    } else if hits == 0 {
        Outcome::NotFound
    } else {
        Outcome::Found
    }
}

impl Outcome {
    /// The process exit code: 0 found, 2 not found, 1 unreachable.
    pub fn exit_code(self) -> (r: u8)
        ensures
            r == match self {
                Outcome::Found => 0u8,
                Outcome::NotFound => 2u8,
                Outcome::Unreachable => 1u8,
            },
    {
        match self {
            Outcome::Found => 0,
            Outcome::NotFound => 2,
            Outcome::Unreachable => 1,
        }
    }
}

/// The exit code of a probe run: success when any variant answered.
pub fn probe_exit_code(any_answered: bool) -> (r: u8)
    ensures
        r == if any_answered {
            0u8
        } else {
            1u8
        },
{
    if any_answered {
        0
    } else {
        1
    }
}

} // verus!

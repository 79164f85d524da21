//! The notice watcher's decisions: which notices a list response holds, which
//! of them are new, in what order they go out, and how the last-seen id
//! advances, so that a failed delivery never makes a notice be skipped.
use vstd::prelude::*;
use crate::json::{find_notices_array, get, get_exec, json_of, notices_array, parse_json, JsonValue};
use crate::number::{decimal, decimal_string, parse_trimmed_i64, parse_trimmed_u64, parsed_i64, parsed_u64};
use crate::text::{chars_of, push_str, starts_with, string_of, trim};

verus! {

// ---------------------------------------------------------------------------
// Notices
// ---------------------------------------------------------------------------

/// One entry of the notice list.
#[derive(Debug, PartialEq, Eq)]
pub struct Notice {
    pub id: i64,
    pub title: String,
}

/// A copy of a notice.
pub fn copy_notice(n: &Notice) -> (r: Notice)
    ensures
        r == *n,
{
    Notice { id: n.id, title: n.title.clone() }
}

/// The notice an item of the list stands for: an object with an integer `id`
/// and a string `title`.
pub open spec fn notice_of(item: JsonValue) -> Option<Notice> {
    match (get(item, "id"@), get(item, "title"@)) {
        (Some(JsonValue::Number(Some(id))), Some(JsonValue::Str(t))) => Some(
            Notice { id, title: t },
        ),
        _ => None,
    }
}

/// The notices the items stand for, in order; items that do not stand for one
/// are passed over.
pub open spec fn notices_of(items: Seq<JsonValue>) -> Seq<Notice>
    decreases items.len(),
{
    if items.len() == 0 {
        seq![]
    } else {
        match notice_of(items.last()) {
            Some(n) => notices_of(items.drop_last()).push(n),
            None => notices_of(items.drop_last()),
        }
    }
}

/// The notices of a list of items.
pub fn notices_from_items(items: &Vec<JsonValue>) -> (r: Vec<Notice>)
    ensures
        r@ == notices_of(items@),
{
    let mut out: Vec<Notice> = Vec::new();
    let n = items.len();
    for i in 0..n
        invariant
            n == items.len(),
            out@ == notices_of(items@.take(i as int)),
    {
        assert(items@.take(i + 1).drop_last() =~= items@.take(i as int));
        let item = &items[i];
        match (get_exec(item, "id"), get_exec(item, "title")) {
            (Some(JsonValue::Number(Some(id))), Some(JsonValue::Str(t))) => {
                out.push(Notice { id: *id, title: t.clone() });
            },
            _ => {},
        }
    }
    assert(items@.take(n as int) =~= items@);
    out
}

/// The notices of a list response; `None` when it holds no notices array.
pub fn notices_from_json(v: &JsonValue) -> (r: Option<Vec<Notice>>)
    ensures
        match notices_array(*v) {
            Some(a) => r matches Some(ns) && ns@ == notices_of(a@),
            None => r is None,
        },
{
    match find_notices_array(v) {
        Some(a) => Some(notices_from_items(a)),
        None => None,
    }
}

/// At most the first 180 chars of `body`.
pub open spec fn snippet(body: Seq<char>) -> Seq<char> {
    if body.len() <= 180 {
        body
    } else {
        body.take(180)
    }
}

/// Reads a list response: `success` and `status` describe its HTTP status,
/// `body` is its text. A failed status gives `HTTP <status>: <snippet>`, a body
/// that is not JSON `json parse: ` and the parser's message, a document
/// without a notices array `no notices array in response`; otherwise the
/// notices of that array.
pub fn notices_from_response(success: bool, status: &str, body: &str) -> (r: Result<
    Vec<Notice>,
    String,
>)
    ensures
        !success ==> (r matches Err(e) && e@ == "HTTP "@ + status@ + ": "@ + snippet(body@)),
        success && json_of(body@) is None ==> (r matches Err(e) && starts_with(e@, "json parse: "@)),
        success && json_of(body@) is Some ==> match notices_array(json_of(body@)->0) {
            Some(a) => r matches Ok(ns) && ns@ == notices_of(a@),
            None => r matches Err(e) && e@ == "no notices array in response"@,
        },
{
    if !success {
        let b = chars_of(body);
        let mut m = chars_of("HTTP ");
        push_str(&mut m, status);
        push_str(&mut m, ": ");
        let mut i: usize = 0;
        let n: usize = if b.len() <= 180 {
            b.len()
        } else {
            180
        };
        let ghost head = m@;
        while i < n
            invariant
                n <= b.len(),
                i <= n,
                m@ == head + b@.take(i as int),
            decreases n - i,
        {
            m.push(b[i]);
            assert(b@.take(i + 1) =~= b@.take(i as int).push(b@[i as int]));
            i = i + 1;
        }
        assert(b@.take(n as int) =~= snippet(b@));
        return Err(string_of(&m));
    }
    match parse_json(body) {
        Ok(v) => match notices_from_json(&v) {
            Some(ns) => Ok(ns),
            None => Err(string_of(&chars_of("no notices array in response"))),
        },
        Err(e) => {
            let mut m = chars_of("json parse: ");
            let ghost head = m@;
            push_str(&mut m, e.as_str());
            assert(m@.subrange(0, head.len() as int) =~= head);
            Err(string_of(&m))
        },
    }
}

// ---------------------------------------------------------------------------
// New notices, oldest first
// ---------------------------------------------------------------------------

/// The notices with an id strictly greater than `prev`, in their order.
pub open spec fn newer_than(s: Seq<Notice>, prev: i64) -> Seq<Notice>
    decreases s.len(),
{
    if s.len() == 0 {
        seq![]
    } else if s.last().id > prev {
        newer_than(s.drop_last(), prev).push(s.last())
    } else {
        newer_than(s.drop_last(), prev)
    }
}

/// `n` inserted into `s` after every element whose id is at most `n.id`,
/// counting from the end.
pub open spec fn insert_by_id(s: Seq<Notice>, n: Notice) -> Seq<Notice>
    decreases s.len(),
{
    if s.len() == 0 || s.last().id <= n.id {
        s.push(n)
    } else {
        insert_by_id(s.drop_last(), n).push(s.last())
    }
}

/// `s` sorted by id, notices with equal ids keeping their order (a stable sort).
pub open spec fn sort_by_id(s: Seq<Notice>) -> Seq<Notice>
    decreases s.len(),
{
    if s.len() == 0 {
        s
    } else {
        insert_by_id(sort_by_id(s.drop_last()), s.last())
    }
}

/// The notices to send after `prev`: the newer ones, oldest (lowest id) first.
pub open spec fn fresh(s: Seq<Notice>, prev: i64) -> Seq<Notice> {
    sort_by_id(newer_than(s, prev))
}

/// The largest id in a non-empty list.
pub open spec fn max_id(s: Seq<Notice>) -> i64
    decreases s.len(),
{
    if s.len() <= 1 {
        s[0].id
    } else if max_id(s.drop_last()) >= s.last().id {
        max_id(s.drop_last())
    } else {
        s.last().id
    }
}

fn insert_notice(out: &mut Vec<Notice>, n: Notice)
    ensures
        final(out)@ == insert_by_id(old(out)@, n),
{
    let ghost s = out@;
    let mut j = out.len();
    assert(s.take(j as int) =~= s);
    assert(s.skip(j as int) =~= Seq::<Notice>::empty());
    while j > 0 && out[j - 1].id > n.id
        invariant
            out@ == s,
            j <= s.len(),
            insert_by_id(s, n) == insert_by_id(s.take(j as int), n) + s.skip(j as int),
        decreases j,
    {
        let ghost t = s.take(j as int);
        assert(t.drop_last() =~= s.take(j - 1));
        assert(t.last() == s[j - 1]);
        assert(s.skip(j - 1) =~= seq![s[j - 1]] + s.skip(j as int));
        assert(insert_by_id(t, n) == insert_by_id(s.take(j - 1), n).push(s[j - 1]));
        assert(insert_by_id(s.take(j - 1), n).push(s[j - 1]) + s.skip(j as int) =~= insert_by_id(
            s.take(j - 1),
            n,
        ) + s.skip(j - 1));
        j = j - 1;
    }
    proof {
        let t = s.take(j as int);
        assert(insert_by_id(t, n) == t.push(n));
        assert(t.push(n) + s.skip(j as int) =~= s.insert(j as int, n));
    }
    out.insert(j, n);
}

/// The notices newer than `prev`, sorted by id, oldest first.
pub fn fresh_notices(notices: &Vec<Notice>, prev: i64) -> (r: Vec<Notice>)
    ensures
        r@ == fresh(notices@, prev),
{
    let mut newer: Vec<Notice> = Vec::new();
    let n = notices.len();
    for i in 0..n
        invariant
            n == notices.len(),
            newer@ == newer_than(notices@.take(i as int), prev),
    {
        assert(notices@.take(i + 1).drop_last() =~= notices@.take(i as int));
        if notices[i].id > prev {
            newer.push(copy_notice(&notices[i]));
        }
    }
    assert(notices@.take(n as int) =~= notices@);
    let mut out: Vec<Notice> = Vec::new();
    let m = newer.len();
    for i in 0..m
        invariant
            m == newer.len(),
            out@ == sort_by_id(newer@.take(i as int)),
    {
        assert(newer@.take(i + 1).drop_last() =~= newer@.take(i as int));
        insert_notice(&mut out, copy_notice(&newer[i]));
    }
    assert(newer@.take(m as int) =~= newer@);
    out
}

/// The largest id of a non-empty list.
pub fn batch_max(notices: &Vec<Notice>) -> (r: i64)
    requires
        notices.len() > 0,
    ensures
        r == max_id(notices@),
{
    let mut m = notices[0].id;
    let n = notices.len();
    assert(notices@.take(1).len() == 1);
    for i in 1..n
        invariant
            n == notices.len(),
            n > 0,
            m == max_id(notices@.take(i as int)),
    {
        let ghost t = notices@.take(i + 1);
        assert(t.drop_last() =~= notices@.take(i as int));
        if notices[i].id > m {
            m = notices[i].id;
        }
    }
    assert(notices@.take(n as int) =~= notices@);
    m
}

// ---------------------------------------------------------------------------
// The watcher
// ---------------------------------------------------------------------------

/// What to do with one poll's notices.
#[derive(Debug)]
pub enum Step {
    /// The response held no notices: nothing to do until the next poll.
    Skip,
    /// First poll without a recorded id: record (and persist) this id as the
    /// baseline and send nothing.
    Baseline(i64),
    /// Send these notices in this order, recording each id after its
    /// successful delivery and stopping at the first failure.
    Send(Vec<Notice>),
}

/// The watcher's state: the id of the last notice delivered (or the baseline),
/// if any.
pub struct Watcher {
    seen_max: Option<i64>,
}

impl View for Watcher {
    type V = Option<i64>;

    closed spec fn view(&self) -> Option<i64> {
        self.seen_max
    }
}

impl Watcher {
    /// A watcher that resumes from a persisted id, or has none yet.
    pub fn new(seen: Option<i64>) -> (r: Watcher)
        ensures
            r@ == seen,
    {
        Watcher { seen_max: seen }
    }

    /// The id of the last notice delivered, or the baseline.
    pub fn seen_max(&self) -> (r: Option<i64>)
        ensures
            r == self@,
    {
        self.seen_max
    }

    /// Decides what to do with one poll's notices.
    pub fn on_batch(&mut self, notices: &Vec<Notice>) -> (step: Step)
        ensures
            notices@.len() == 0 ==> step is Skip && final(self)@ == old(self)@,
            notices@.len() > 0 && old(self)@ is None ==> step == Step::Baseline(max_id(notices@))
                && final(self)@ == Some(max_id(notices@)),
            notices@.len() > 0 && old(self)@ is Some ==> (step matches Step::Send(list) && list@
                == fresh(notices@, old(self)@->0) && final(self)@ == old(self)@),
    {
        if notices.len() == 0 {
            return Step::Skip;
        }
        match self.seen_max {
            None => {
                let m = batch_max(notices);
                self.seen_max = Some(m);
                Step::Baseline(m)
            },
            Some(prev) => Step::Send(fresh_notices(notices, prev)),
        }
    }

    /// Records the outcome of sending notice `id` and says whether to go on
    /// with the rest of the list: a delivered notice becomes the last seen; a
    /// failed one leaves the watcher where it was and ends the list, so an
    /// outage never moves it past an unsent notice.
    pub fn on_send_result(&mut self, id: i64, delivered: bool) -> (go_on: bool)
        ensures
            go_on == delivered,
            final(self)@ == if delivered {
                Some(id)
            } else {
                old(self)@
            },
    {
        if delivered {
            self.seen_max = Some(id);
        }
        delivered
    }
}

// ---------------------------------------------------------------------------
// Messages and settings
// ---------------------------------------------------------------------------

/// The chat message for a notice: a header, the title, and the notice's page.
pub open spec fn message_text(n: Notice) -> Seq<char> {
    "🔔 Upbit notice\n"@ + n.title@ + "\n\nhttps://www.upbit.com/service_center/notice?id="@
        + decimal(n.id as int)
}

/// The chat message announcing a notice.
pub fn notice_message(n: &Notice) -> (r: String)
    ensures
        r@ == message_text(*n),
{
    let mut v: Vec<char> = Vec::new();
    push_str(&mut v, "🔔 Upbit notice\n");
    push_str(&mut v, n.title.as_str());
    push_str(&mut v, "\n\nhttps://www.upbit.com/service_center/notice?id=");
    let id = decimal_string(n.id);
    push_str(&mut v, id.as_str());
    string_of(&v)
}

/// The text of an optional string.
pub open spec fn opt_str_view(o: Option<&str>) -> Option<Seq<char>> {
    match o {
        Some(s) => Some(s@),
        None => None,
    }
}

/// An `i64` setting: the trimmed text parsed, or `default` when it is absent
/// or does not parse.
pub open spec fn i64_setting(raw: Option<Seq<char>>, default: i64) -> i64 {
    match raw {
        Some(s) => match parsed_i64(trim(s)) {
            Some(x) => x,
            None => default,
        },
        None => default,
    }
}

/// A `u64` setting: the trimmed text parsed, or `default` when it is absent
/// or does not parse.
pub open spec fn u64_setting(raw: Option<Seq<char>>, default: u64) -> u64 {
    match raw {
        Some(s) => match parsed_u64(trim(s)) {
            Some(x) => x,
            None => default,
        },
        None => default,
    }
}

/// The chat to notify when none is configured.
pub open spec fn default_chat_id() -> i64 {
    215_555_555
}

/// The chat to notify, from its configured text.
pub fn chat_id_setting(raw: Option<&str>) -> (r: i64)
    ensures
        r == i64_setting(opt_str_view(raw), default_chat_id()),
{
    match raw {
        Some(s) => match parse_trimmed_i64(s) {
            Some(x) => x,
            None => 215_555_555,
        },
        None => 215_555_555,
    }
}

/// The poll interval in seconds, from its configured text: 60 by default, and
/// never below 5 so that the API is not hammered.
pub fn poll_secs_setting(raw: Option<&str>) -> (r: u64)
    ensures
        r == if u64_setting(opt_str_view(raw), 60) >= 5 {
            u64_setting(opt_str_view(raw), 60)
        } else {
            5
        },
{
    let configured = match raw {
        Some(s) => match parse_trimmed_u64(s) {
            Some(x) => x,
            None => 60,
        },
        None => 60,
    };
    if configured >= 5 {
        configured
    } else {
        5
    }
}

/// The persisted last-seen id, from the state file's text: `None` when it does
/// not parse.
pub fn parse_seen(text: &str) -> (r: Option<i64>)
    ensures
        r == parsed_i64(trim(text@)),
{
    parse_trimmed_i64(text)
}

// ---------------------------------------------------------------------------
// Laws
// ---------------------------------------------------------------------------

/// Ids do not decrease along `s`.
pub open spec fn sorted_by_id(s: Seq<Notice>) -> bool {
    forall|i: int, j: int| 0 <= i <= j < s.len() ==> #[trigger] s[i].id <= #[trigger] s[j].id
}

/// No two notices of `s` share an id.
pub open spec fn ids_distinct(s: Seq<Notice>) -> bool {
    forall|i: int, j: int| 0 <= i < s.len() && 0 <= j < s.len() && i != j ==> #[trigger] s[i].id
        != #[trigger] s[j].id
}

proof fn lemma_newer_than(s: Seq<Notice>, p: i64)
    ensures
        forall|x: Notice| #[trigger] newer_than(s, p).contains(x) <==> s.contains(x) && x.id > p,
        ids_distinct(s) ==> ids_distinct(newer_than(s, p)),
        newer_than(s, p).len() <= s.len(),
    decreases s.len(),
{
    if s.len() > 0 {
        let d = s.drop_last();
        lemma_newer_than(d, p);
        let r = newer_than(s, p);
        let rd = newer_than(d, p);
        assert forall|x: Notice| #[trigger] r.contains(x) <==> s.contains(x) && x.id > p by {
            if s.last().id > p {
                if r.contains(x) {
                    let i = choose|i: int| 0 <= i < r.len() && r[i] == x;
                    if i < rd.len() {
                        assert(rd[i] == x);
                        assert(rd.contains(x));
                        let k = choose|k: int| 0 <= k < d.len() && d[k] == x;
                        assert(s[k] == x);
                    } else {
                        assert(s[s.len() - 1] == x);
                    }
                }
                if s.contains(x) && x.id > p {
                    let k = choose|k: int| 0 <= k < s.len() && s[k] == x;
                    if k < d.len() {
                        assert(d[k] == x);
                        assert(d.contains(x));
                        assert(rd.contains(x));
                        let i = choose|i: int| 0 <= i < rd.len() && rd[i] == x;
                        assert(r[i] == x);
                    } else {
                        assert(r[rd.len() as int] == x);
                    }
                }
            } else {
                if r.contains(x) {
                    let k = choose|k: int| 0 <= k < d.len() && d[k] == x;
                    assert(s[k] == x);
                }
                if s.contains(x) && x.id > p {
                    let k = choose|k: int| 0 <= k < s.len() && s[k] == x;
                    assert(k < d.len());
                    assert(d[k] == x);
                    assert(d.contains(x));
                }
            }
        }
        if ids_distinct(s) {
            assert(ids_distinct(d)) by {
                assert forall|i: int, j: int|
                    0 <= i < d.len() && 0 <= j < d.len() && i != j implies #[trigger] d[i].id
                    != #[trigger] d[j].id by {
                    assert(d[i] == s[i] && d[j] == s[j]);
                }
            }
            if s.last().id > p {
                assert forall|i: int, j: int|
                    0 <= i < r.len() && 0 <= j < r.len() && i != j implies #[trigger] r[i].id
                    != #[trigger] r[j].id by {
                    if i < rd.len() && j < rd.len() {
                        assert(r[i] == rd[i] && r[j] == rd[j]);
                    } else {
                        let a = if i < rd.len() { i } else { j };
                        assert(rd.contains(rd[a]));
                        let k = choose|k: int| 0 <= k < d.len() && d[k] == rd[a];
                        assert(s[k] == rd[a]);
                        assert(s[s.len() - 1] == s.last());
                    }
                }
            }
        }
    }
}

proof fn lemma_insert_by_id(s: Seq<Notice>, n: Notice)
    ensures
        insert_by_id(s, n).len() == s.len() + 1,
        forall|x: Notice| #[trigger] insert_by_id(s, n).contains(x) <==> s.contains(x) || x == n,
        sorted_by_id(s) ==> sorted_by_id(insert_by_id(s, n)),
        ids_distinct(s) && (forall|i: int| 0 <= i < s.len() ==> #[trigger] s[i].id != n.id)
            ==> ids_distinct(insert_by_id(s, n)),
    decreases s.len(),
{
    let r = insert_by_id(s, n);
    if s.len() == 0 || s.last().id <= n.id {
        assert(r == s.push(n));
        assert forall|x: Notice| #[trigger] r.contains(x) <==> s.contains(x) || x == n by {
            if r.contains(x) {
                let i = choose|i: int| 0 <= i < r.len() && r[i] == x;
                if i < s.len() {
                    assert(s[i] == x);
                }
            }
            if s.contains(x) {
                let k = choose|k: int| 0 <= k < s.len() && s[k] == x;
                assert(r[k] == x);
            }
            if x == n {
                assert(r[s.len() as int] == x);
            }
        }
        if sorted_by_id(s) {
            assert forall|i: int, j: int| 0 <= i <= j < r.len() implies #[trigger] r[i].id
                <= #[trigger] r[j].id by {
                if j == s.len() && i < j {
                    assert(s[i].id <= s[s.len() - 1].id);
                }
            }
        }
    } else {
        let d = s.drop_last();
        let l = s.last();
        lemma_insert_by_id(d, n);
        let rd = insert_by_id(d, n);
        assert(r == rd.push(l));
        assert forall|x: Notice| #[trigger] r.contains(x) <==> s.contains(x) || x == n by {
            if r.contains(x) {
                let i = choose|i: int| 0 <= i < r.len() && r[i] == x;
                if i < rd.len() {
                    assert(rd[i] == x);
                    assert(rd.contains(x));
                    if d.contains(x) {
                        let k = choose|k: int| 0 <= k < d.len() && d[k] == x;
                        assert(s[k] == x);
                    }
                } else {
                    assert(s[s.len() - 1] == x);
                }
            }
            if s.contains(x) {
                let k = choose|k: int| 0 <= k < s.len() && s[k] == x;
                if k < d.len() {
                    assert(d[k] == x);
                    assert(d.contains(x));
                    assert(rd.contains(x));
                    let i = choose|i: int| 0 <= i < rd.len() && rd[i] == x;
                    assert(r[i] == x);
                } else {
                    assert(r[rd.len() as int] == x);
                }
            }
            if x == n {
                assert(rd.contains(n));
                let i = choose|i: int| 0 <= i < rd.len() && rd[i] == n;
                assert(r[i] == x);
            }
        }
        if sorted_by_id(s) {
            assert(sorted_by_id(d)) by {
                assert forall|i: int, j: int| 0 <= i <= j < d.len() implies #[trigger] d[i].id
                    <= #[trigger] d[j].id by {
                    assert(d[i] == s[i] && d[j] == s[j]);
                }
            }
            assert forall|i: int, j: int| 0 <= i <= j < r.len() implies #[trigger] r[i].id
                <= #[trigger] r[j].id by {
                if j == rd.len() && i < j {
                    assert(r[i] == rd[i]);
                    assert(rd.contains(rd[i]));
                    if d.contains(rd[i]) {
                        let k = choose|k: int| 0 <= k < d.len() && d[k] == rd[i];
                        assert(s[k].id <= s[s.len() - 1].id);
                    }
                } else if j < rd.len() {
                    assert(r[i] == rd[i] && r[j] == rd[j]);
                }
            }
        }
        if ids_distinct(s) && (forall|i: int| 0 <= i < s.len() ==> #[trigger] s[i].id != n.id) {
            assert(ids_distinct(d)) by {
                assert forall|i: int, j: int|
                    0 <= i < d.len() && 0 <= j < d.len() && i != j implies #[trigger] d[i].id
                    != #[trigger] d[j].id by {
                    assert(d[i] == s[i] && d[j] == s[j]);
                }
            }
            assert forall|i: int| 0 <= i < d.len() implies #[trigger] d[i].id != n.id by {
                assert(d[i] == s[i]);
            }
            assert forall|i: int, j: int|
                0 <= i < r.len() && 0 <= j < r.len() && i != j implies #[trigger] r[i].id
                != #[trigger] r[j].id by {
                if i < rd.len() && j < rd.len() {
                    assert(r[i] == rd[i] && r[j] == rd[j]);
                } else {
                    let a = if i < rd.len() { i } else { j };
                    assert(r[a] == rd[a]);
                    assert(rd.contains(rd[a]));
                    assert(s[s.len() - 1] == l);
                    if d.contains(rd[a]) {
                        let k = choose|k: int| 0 <= k < d.len() && d[k] == rd[a];
                        assert(s[k] == rd[a]);
                    }
                }
            }
        }
    }
}

proof fn lemma_sort_by_id(s: Seq<Notice>)
    ensures
        sort_by_id(s).len() == s.len(),
        forall|x: Notice| #[trigger] sort_by_id(s).contains(x) <==> s.contains(x),
        sorted_by_id(sort_by_id(s)),
        ids_distinct(s) ==> ids_distinct(sort_by_id(s)),
    decreases s.len(),
{
    if s.len() > 0 {
        let d = s.drop_last();
        let l = s.last();
        lemma_sort_by_id(d);
        let sd = sort_by_id(d);
        lemma_insert_by_id(sd, l);
        assert forall|x: Notice| #[trigger] sort_by_id(s).contains(x) <==> s.contains(x) by {
            if sd.contains(x) {
                let k = choose|k: int| 0 <= k < d.len() && d[k] == x;
                assert(s[k] == x);
            }
            if x == l {
                assert(s[s.len() - 1] == x);
            }
            if s.contains(x) {
                let k = choose|k: int| 0 <= k < s.len() && s[k] == x;
                if k < d.len() {
                    assert(d[k] == x);
                    assert(d.contains(x));
                }
            }
        }
        if ids_distinct(s) {
            assert(ids_distinct(d)) by {
                assert forall|i: int, j: int|
                    0 <= i < d.len() && 0 <= j < d.len() && i != j implies #[trigger] d[i].id
                    != #[trigger] d[j].id by {
                    assert(d[i] == s[i] && d[j] == s[j]);
                }
            }
            assert forall|i: int| 0 <= i < sd.len() implies #[trigger] sd[i].id != l.id by {
                assert(sd.contains(sd[i]));
                let k = choose|k: int| 0 <= k < d.len() && d[k] == sd[i];
                assert(s[k] == sd[i]);
                assert(s[s.len() - 1] == l);
            }
        }
    } else {
        assert(sort_by_id(s) == s);
    }
}

/// The notices sent after `prev` are exactly those of the list with a larger
/// id, each once, in order of increasing id; so delivering them in order only
/// ever moves the last-seen id forward.
pub proof fn fresh_is_sorted_and_exact(s: Seq<Notice>, prev: i64)
    ensures
        sorted_by_id(fresh(s, prev)),
        forall|x: Notice| #[trigger] fresh(s, prev).contains(x) <==> s.contains(x) && x.id > prev,
        forall|i: int| 0 <= i < fresh(s, prev).len() ==> #[trigger] fresh(s, prev)[i].id > prev,
        ids_distinct(s) ==> ids_distinct(fresh(s, prev)),
{
    lemma_newer_than(s, prev);
    lemma_sort_by_id(newer_than(s, prev));
    let f = fresh(s, prev);
    assert forall|i: int| 0 <= i < f.len() implies #[trigger] f[i].id > prev by {
        assert(f.contains(f[i]));
    }
}

/// The first poll records the largest id as the baseline and sends nothing;
/// polling the same list again then finds nothing new either.
pub proof fn baseline_sends_nothing_twice(s: Seq<Notice>)
    requires
        s.len() > 0,
    ensures
        fresh(s, max_id(s)).len() == 0,
{
    lemma_max_id(s);
    lemma_newer_than(s, max_id(s));
    let nw = newer_than(s, max_id(s));
    if nw.len() > 0 {
        assert(nw.contains(nw[0]));
        let k = choose|k: int| 0 <= k < s.len() && s[k] == nw[0];
        assert(s[k].id <= max_id(s));
    }
    lemma_sort_by_id(nw);
}

proof fn lemma_max_id(s: Seq<Notice>)
    requires
        s.len() > 0,
    ensures
        forall|i: int| 0 <= i < s.len() ==> #[trigger] s[i].id <= max_id(s),
    decreases s.len(),
{
    if s.len() > 1 {
        lemma_max_id(s.drop_last());
        assert forall|i: int| 0 <= i < s.len() implies #[trigger] s[i].id <= max_id(s) by {
            if i < s.len() - 1 {
                assert(s[i] == s.drop_last()[i]);
            }
        }
    }
}

/// No notice is skipped when a delivery fails: if the first `k` notices of a
/// send list were delivered (so the last-seen id is that of the `k`-th), the
/// next poll over the same notices sends exactly the ones not yet delivered.
/// Stated for lists whose notices have distinct ids, as Upbit's do.
pub proof fn undelivered_notices_are_sent_next(s: Seq<Notice>, prev: i64, k: int)
    requires
        ids_distinct(s),
        0 < k <= fresh(s, prev).len(),
    ensures
        forall|x: Notice|
            #[trigger] fresh(s, fresh(s, prev)[k - 1].id).contains(x) <==> fresh(s, prev).skip(
                k,
            ).contains(x),
{
    let list = fresh(s, prev);
    let q = list[k - 1].id;
    fresh_is_sorted_and_exact(s, prev);
    fresh_is_sorted_and_exact(s, q);
    let next = fresh(s, q);
    assert forall|x: Notice| #[trigger] next.contains(x) <==> list.skip(k).contains(x) by {
        if next.contains(x) {
            assert(x.id > q);
            assert(q > prev) by {
                assert(list[k - 1].id > prev);
            }
            assert(list.contains(x));
            let j = choose|j: int| 0 <= j < list.len() && list[j] == x;
            if j < k {
                assert(list[j].id <= list[k - 1].id);
            }
            assert(list.skip(k)[j - k] == x);
        }
        if list.skip(k).contains(x) {
            let i = choose|i: int| 0 <= i < list.skip(k).len() && list.skip(k)[i] == x;
            let j = i + k;
            assert(list[j] == x);
            assert(list[k - 1].id <= list[j].id);
            assert(list[k - 1].id != list[j].id);
            assert(list.contains(x));
        }
    }
}

} // verus!

use vstd::prelude::*;
use vstd::string::StrSliceExecFns;
use vstd::string::StringExecFns;
use vstd::utf8::encode_utf8;
use crate::events::Event;
use crate::json::{json_quote, quoted};
use crate::levels::{seq_level_name, to_seq_level};

verus! {

/// The size of a text on the wire: the length of its UTF-8 encoding.
pub open spec fn byte_len(s: Seq<char>) -> nat {
    encode_utf8(s).len()
}

/// `"name":value`, the value being JSON text already.
pub open spec fn property_entry(p: (Seq<char>, Seq<char>)) -> Seq<char> {
    "\""@ + p.0 + "\":"@ + p.1
}

/// The entries of `props`, separated by commas.
pub open spec fn properties_text(props: Seq<(Seq<char>, Seq<char>)>) -> Seq<char>
    decreases props.len(),
{
    if props.len() == 0 {
        Seq::empty()
    } else if props.len() == 1 {
        property_entry(props[0])
    } else {
        properties_text(props.drop_last()) + ","@ + property_entry(props.last())
    }
}

/// A JSON object with the keys `Timestamp`, `Level`, `MessageTemplate` and
/// `Properties`, in that order: the first two hold the given texts as
/// strings, the third the given JSON value, the fourth an object of the given
/// entries.
pub open spec fn event_object(
    timestamp: Seq<char>,
    level: Seq<char>,
    template: Seq<char>,
    entries: Seq<char>,
) -> Seq<char> {
    "{\"Timestamp\":\""@ + timestamp + "\",\"Level\":\""@ + level + "\",\"MessageTemplate\":"@
        + template + ",\"Properties\":{"@ + entries + "}}"@
}

/// The JSON object that carries an event.
pub open spec fn payload_text(e: Event) -> Seq<char> {
    event_object(
        e.spec_timestamp().iso_text(),
        seq_level_name(e.spec_level()),
        quoted(e.spec_template()),
        properties_text(e.spec_properties()),
    )
}

/// The first 64 characters of a template, or all of it where it is shorter.
pub open spec fn initial_text(t: Seq<char>) -> Seq<char> {
    if t.len() > 64 {
        t.take(64)
    } else {
        t
    }
}

/// The template of the placeholder: it names the event as too large and
/// shows the start of its template.
pub open spec fn placeholder_template(t: Seq<char>) -> Seq<char> {
    "(Event too large) "@ + initial_text(t) + "..."@
}

/// The properties of the placeholder: where it comes from, and the start of
/// the template.
pub open spec fn placeholder_entries(t: Seq<char>) -> Seq<char> {
    "\"target\":\"emit::collectors::seq\",\"initial\":"@ + quoted(initial_text(t))
}

/// The reduced object sent in place of an event that is too large.
pub open spec fn placeholder_text(e: Event) -> Seq<char> {
    event_object(
        e.spec_timestamp().iso_text(),
        seq_level_name(e.spec_level()),
        quoted(placeholder_template(e.spec_template())),
        placeholder_entries(e.spec_template()),
    )
}

/// Writes an event as the JSON object the server ingests.
pub fn format_payload(event: &Event) -> (r: String)
    ensures
        r@ == payload_text(*event),
{
    let mut body = String::new();
    body.append("{\"Timestamp\":\"");
    let ts = event.timestamp().to_iso_string();
    body.append(ts.as_str());
    body.append("\",\"Level\":\"");
    body.append(to_seq_level(event.level()));
    body.append("\",\"MessageTemplate\":");
    let template = json_quote(event.message_template().as_str());
    body.append(template.as_str());
    body.append(",\"Properties\":{");
    let ghost head = body@;
    let props = event.properties();
    let ghost pv = event.spec_properties();
    let mut i: usize = 0;
    while i < props.len()
        invariant
            i <= props.len(),
            pv == props@.map_values(|p: (String, String)| (p.0@, p.1@)),
            body@ == head + properties_text(pv.take(i as int)),
        decreases props.len() - i,
    {
        let ghost before = body@;
        if i > 0 {
            body.append(",");
        }
        body.append("\"");
        body.append(props[i].0.as_str());
        body.append("\":");
        body.append(props[i].1.as_str());
        proof {
            let t = pv.take(i + 1);
            assert(t.drop_last() =~= pv.take(i as int));
            assert(t.last() == pv[i as int]);
            assert(pv[i as int] == (props@[i as int].0@, props@[i as int].1@));
            let entry = property_entry(pv[i as int]);
            if i == 0 {
                assert(body@ =~= before + entry);
            } else {
                assert(body@ =~= before + ","@ + entry);
            }
            assert(body@ =~= head + properties_text(t));
        }
        i = i + 1;
    }
    assert(pv.take(i as int) =~= pv);
    body.append("}}");
    assert(body@ =~= payload_text(*event));
    body
}

/// Writes the placeholder that stands for an event too large to send.
pub fn format_oversize_placeholder(event: &Event) -> (r: String)
    ensures
        r@ == placeholder_text(*event),
{
    let text = event.message_template().as_str();
    let n = text.unicode_len();
    let initial = if n > 64 {
        text.substring_char(0, 64)
    } else {
        text
    };
    assert(initial@ == initial_text(event.spec_template()));
    let mut message = String::new();
    message.append("(Event too large) ");
    message.append(initial);
    message.append("...");
    let mut body = String::new();
    body.append("{\"Timestamp\":\"");
    let ts = event.timestamp().to_iso_string();
    body.append(ts.as_str());
    body.append("\",\"Level\":\"");
    body.append(to_seq_level(event.level()));
    body.append("\",\"MessageTemplate\":");
    let quoted_message = json_quote(message.as_str());
    body.append(quoted_message.as_str());
    body.append(",\"Properties\":{");
    body.append("\"target\":\"emit::collectors::seq\",\"initial\":");
    let quoted_initial = json_quote(initial);
    body.append(quoted_initial.as_str());
    body.append("}}");
    assert(body@ =~= placeholder_text(*event));
    body
}

/// Whatever the limit, a text sent for an event is an object with exactly
/// the keys `Timestamp`, `Level`, `MessageTemplate` and `Properties`: the
/// instant, the level's name, and either the event's own template and
/// properties or those of the placeholder.
pub proof fn lemma_fragment_shape(e: Event, limit: nat)
    ensures
        fragment_of(e, limit) matches Some(f) ==> f == event_object(
            e.spec_timestamp().iso_text(),
            seq_level_name(e.spec_level()),
            quoted(e.spec_template()),
            properties_text(e.spec_properties()),
        ) || f == event_object(
            e.spec_timestamp().iso_text(),
            seq_level_name(e.spec_level()),
            quoted(placeholder_template(e.spec_template())),
            placeholder_entries(e.spec_template()),
        ),
{
}

/// When the full object is over the limit and the placeholder is not, the
/// placeholder is sent, and the text of its `MessageTemplate` starts with
/// `(Event too large) `.
pub proof fn lemma_placeholder_chosen(e: Event, limit: nat)
    requires
        byte_len(payload_text(e)) > limit,
        byte_len(placeholder_text(e)) <= limit,
    ensures
        fragment_of(e, limit) == Some(placeholder_text(e)),
        placeholder_template(e.spec_template()).take(18) == "(Event too large) "@,
{
    reveal_strlit("(Event too large) ");
    let head = "(Event too large) "@;
    let rest = initial_text(e.spec_template()) + "..."@;
    assert(placeholder_template(e.spec_template()) =~= head + rest);
    assert((head + rest).take(18) =~= head);
}

/// What the formatter makes of one event under the per-event limit.
pub enum FormatOutcome {
    Normal(String),
    Placeholder(String),
    Dropped,
}

/// The text sent for an event under the per-event limit: the full object
/// where it fits, else the placeholder where that fits, else nothing.
pub open spec fn fragment_of(e: Event, limit: nat) -> Option<Seq<char>> {
    if byte_len(payload_text(e)) <= limit {
        Some(payload_text(e))
    } else if byte_len(placeholder_text(e)) <= limit {
        Some(placeholder_text(e))
    } else {
        None
    }
}

pub proof fn lemma_byte_len_concat(a: Seq<char>, b: Seq<char>)
    ensures
        byte_len(a + b) == byte_len(a) + byte_len(b),
    decreases a.len(),
{
    if a.len() == 0 {
        assert(a + b =~= b);
    } else {
        lemma_byte_len_concat(a.drop_first(), b);
        assert((a + b).drop_first() =~= a.drop_first() + b);
        assert((a + b)[0] == a[0]);
    }
}

/// The number of bytes of `s` in UTF-8.
fn byte_size(s: &str) -> (n: usize)
    ensures
        n == byte_len(s@),
{
    s.as_bytes().len()
}

/// Whether `a + b + c + d` exceeds `limit`, without overflow.
fn sum_exceeds(a: usize, b: usize, c: usize, d: usize, limit: usize) -> (r: bool)
    ensures
        r == (a + b + c + d > limit),
{
    match a.checked_add(b) {
        None => true,
        Some(ab) => match ab.checked_add(c) {
            None => true,
            Some(abc) => match abc.checked_add(d) {
                None => true,
                Some(abcd) => abcd > limit,
            },
        },
    }
}

/// Formats an event, falling back to the placeholder when the full object
/// is over `limit` bytes, and dropping it when the placeholder is too.
pub fn format_event(event: &Event, limit: usize) -> (r: FormatOutcome)
    ensures
        r matches FormatOutcome::Normal(s) ==> byte_len(payload_text(*event)) <= limit && s@
            == payload_text(*event),
        r matches FormatOutcome::Placeholder(s) ==> byte_len(payload_text(*event)) > limit
            && byte_len(placeholder_text(*event)) <= limit && s@ == placeholder_text(*event),
        r is Dropped <==> fragment_of(*event, limit as nat) is None,
        byte_len(payload_text(*event)) > limit && byte_len(placeholder_text(*event)) <= limit
            ==> r is Placeholder,
{
    let payload = format_payload(event);
    if byte_size(payload.as_str()) <= limit {
        FormatOutcome::Normal(payload)
    } else {
        let placeholder = format_oversize_placeholder(event);
        if byte_size(placeholder.as_str()) <= limit {
            FormatOutcome::Placeholder(placeholder)
        } else {
            FormatOutcome::Dropped
        }
    }
}

/// The texts sent for `events`, in order, leaving out the dropped ones.
pub open spec fn kept_fragments(events: Seq<Event>, limit: nat) -> Seq<Seq<char>>
    decreases events.len(),
{
    if events.len() == 0 {
        Seq::empty()
    } else {
        let rest = kept_fragments(events.drop_last(), limit);
        match fragment_of(events.last(), limit) {
            Some(f) => rest.push(f),
            None => rest,
        }
    }
}

/// The fragments separated by commas.
pub open spec fn joined(frags: Seq<Seq<char>>) -> Seq<char>
    decreases frags.len(),
{
    if frags.len() == 0 {
        Seq::empty()
    } else if frags.len() == 1 {
        frags[0]
    } else {
        joined(frags.drop_last()) + ","@ + frags.last()
    }
}

/// The request body that carries a batch of fragments.
pub open spec fn batch_text(frags: Seq<Seq<char>>) -> Seq<char> {
    "{\"Events\":["@ + joined(frags) + "]}"@
}

/// Whether a batch that holds `cur` is closed before `f` joins it: only
/// when it holds something already and `f` would take it over `limit`.
pub open spec fn closes_before(cur: Seq<Seq<char>>, f: Seq<char>, limit: nat) -> bool {
    cur.len() > 0 && byte_len(batch_text(cur.push(f))) > limit
}

/// The closed batches and the open one after taking `frags` in order.
pub open spec fn plan(frags: Seq<Seq<char>>, limit: nat) -> (Seq<Seq<Seq<char>>>, Seq<Seq<char>>)
    decreases frags.len(),
{
    if frags.len() == 0 {
        (Seq::empty(), Seq::empty())
    } else {
        let (done, cur) = plan(frags.drop_last(), limit);
        let f = frags.last();
        if closes_before(cur, f, limit) {
            (done.push(cur), seq![f])
        } else {
            (done, cur.push(f))
        }
    }
}

/// The batches sent for `frags`: the closed ones, then the last one, which
/// is sent even when it is empty.
pub open spec fn batches_of(frags: Seq<Seq<char>>, limit: nat) -> Seq<Seq<Seq<char>>> {
    plan(frags, limit).0.push(plan(frags, limit).1)
}

/// The facts that hold of the batches after any prefix of the fragments.
proof fn lemma_plan_facts(frags: Seq<Seq<char>>, limit: nat)
    ensures
        ({
            let (done, cur) = plan(frags, limit);
            &&& frags.len() > 0 ==> cur.len() > 0
            &&& frags.len() == 0 ==> done.len() == 0 && cur.len() == 0
            &&& forall|k: int|
                0 <= k < done.len() ==> #[trigger] done[k].len() >= 1 && (done[k].len() <= 1
                    || byte_len(batch_text(done[k])) <= limit)
            &&& cur.len() <= 1 || byte_len(batch_text(cur)) <= limit
            &&& done.len() == 0 ==> cur == frags
        }),
    decreases frags.len(),
{
    if frags.len() > 0 {
        let rest = frags.drop_last();
        lemma_plan_facts(rest, limit);
        let (d0, c0) = plan(rest, limit);
        let f = frags.last();
        if !closes_before(c0, f, limit) && d0.len() == 0 {
            assert(c0.push(f) =~= frags);
        }
        if closes_before(c0, f, limit) {
            let done = d0.push(c0);
            assert forall|k: int| 0 <= k < done.len() implies #[trigger] done[k].len() >= 1 && (
            done[k].len() <= 1 || byte_len(batch_text(done[k])) <= limit) by {
                if k < d0.len() {
                    assert(done[k] == d0[k]);
                }
            }
        }
    }
}

/// Every batch is within the batch limit, except a batch of a single event
/// that is over the limit by itself.
pub proof fn lemma_batches_within_limit(frags: Seq<Seq<char>>, limit: nat)
    ensures
        forall|k: int|
            0 <= k < batches_of(frags, limit).len() ==> #[trigger] batches_of(frags, limit)[k].len()
                <= 1 || byte_len(batch_text(batches_of(frags, limit)[k])) <= limit,
{
    lemma_plan_facts(frags, limit);
    let (done, cur) = plan(frags, limit);
    let b = batches_of(frags, limit);
    assert forall|k: int| 0 <= k < b.len() implies #[trigger] b[k].len() <= 1 || byte_len(
        batch_text(b[k]),
    ) <= limit by {
        if k < done.len() {
            assert(b[k] == done[k]);
        }
    }
}

/// Fragments that together are over the batch limit go out in two sends or
/// more.
pub proof fn lemma_oversized_input_splits(frags: Seq<Seq<char>>, limit: nat)
    requires
        frags.len() >= 2,
        byte_len(batch_text(frags)) > limit,
    ensures
        batches_of(frags, limit).len() >= 2,
{
    lemma_plan_facts(frags, limit);
}

/// Where there are fragments, each batch holds one at least; where there are
/// none, a single empty batch is sent.
pub proof fn lemma_batches_nonempty(frags: Seq<Seq<char>>, limit: nat)
    ensures
        frags.len() > 0 ==> forall|k: int|
            0 <= k < batches_of(frags, limit).len() ==> #[trigger] batches_of(frags, limit)[k].len()
                >= 1,
        frags.len() == 0 ==> batches_of(frags, limit) == seq![Seq::<Seq<char>>::empty()],
{
    lemma_plan_facts(frags, limit);
    let (done, cur) = plan(frags, limit);
    let b = batches_of(frags, limit);
    if frags.len() > 0 {
        assert forall|k: int| 0 <= k < b.len() implies #[trigger] b[k].len() >= 1 by {
            if k < done.len() {
                assert(b[k] == done[k]);
            }
        }
    } else {
        assert(b =~= seq![Seq::<Seq<char>>::empty()]);
    }
}

proof fn lemma_plan_keeps_order(frags: Seq<Seq<char>>, limit: nat)
    ensures
        plan(frags, limit).0.flatten() + plan(frags, limit).1 == frags,
    decreases frags.len(),
{
    let (done, cur) = plan(frags, limit);
    if frags.len() == 0 {
        assert(done.flatten() + cur =~= frags);
    } else {
        let rest = frags.drop_last();
        lemma_plan_keeps_order(rest, limit);
        let (d0, c0) = plan(rest, limit);
        let f = frags.last();
        if closes_before(c0, f, limit) {
            d0.lemma_flatten_push(c0);
            assert(done.flatten() + cur =~= d0.flatten() + c0 + seq![f]);
        } else {
            assert(done.flatten() + cur =~= d0.flatten() + c0 + seq![f]);
        }
        assert(rest.push(f) =~= frags);
    }
}

/// The batches hold the fragments in their order, each once: put end to end
/// they give the fragments back.
pub proof fn lemma_batches_keep_order(frags: Seq<Seq<char>>, limit: nat)
    ensures
        batches_of(frags, limit).flatten() == frags,
{
    lemma_plan_keeps_order(frags, limit);
    let (done, cur) = plan(frags, limit);
    done.lemma_flatten_push(cur);
}

proof fn lemma_kept_concat(x: Seq<Event>, y: Seq<Event>, limit: nat)
    ensures
        kept_fragments(x + y, limit) == kept_fragments(x, limit) + kept_fragments(y, limit),
    decreases y.len(),
{
    if y.len() == 0 {
        assert(x + y =~= x);
        assert(kept_fragments(x, limit) + kept_fragments(y, limit) =~= kept_fragments(x, limit));
    } else {
        lemma_kept_concat(x, y.drop_last(), limit);
        assert((x + y).drop_last() =~= x + y.drop_last());
        assert((x + y).last() == y.last());
        let kx = kept_fragments(x, limit);
        let ky0 = kept_fragments(y.drop_last(), limit);
        match fragment_of(y.last(), limit) {
            Some(f) => {
                assert(kx + ky0.push(f) =~= (kx + ky0).push(f));
            },
            None => {},
        }
    }
}

/// An event that is too large even as a placeholder adds nothing to any
/// batch: the fragments are those of the other events.
#[verifier::rlimit(40)]
pub proof fn lemma_dropped_event_excluded(
    before: Seq<Event>,
    e: Event,
    after: Seq<Event>,
    limit: nat,
)
    requires
        fragment_of(e, limit) is None,
    ensures
        kept_fragments(before + seq![e] + after, limit) == kept_fragments(before + after, limit),
{
    let one = seq![e];
    lemma_kept_concat(before + one, after, limit);
    lemma_kept_concat(before, one, limit);
    lemma_kept_concat(before, after, limit);
    assert(one.drop_last() =~= Seq::<Event>::empty());
    assert(one.last() == e);
    let kb = kept_fragments(before, limit);
    assert(kept_fragments(one, limit) == kept_fragments(Seq::<Event>::empty(), limit));
    assert(kb + kept_fragments(one, limit) =~= kb);
}

/// The default limit on one formatted event, in bytes.
pub const DEFAULT_EVENT_BODY_LIMIT_BYTES: usize = 1024 * 256;

/// The default limit on one request body, in bytes.
pub const DEFAULT_BATCH_LIMIT_BYTES: usize = 1024 * 1024 * 10;

/// The address of a server on this machine.
pub const LOCAL_SERVER_URL: &'static str = "http://localhost:5341/";

/// The ingestion address under a server's base address, which gets a
/// trailing slash where it has none.
pub open spec fn endpoint_of(server_url: Seq<char>) -> Seq<char> {
    if server_url.len() > 0 && server_url.last() == '/' {
        server_url + "api/events/raw/"@
    } else {
        server_url + "/"@ + "api/events/raw/"@
    }
}

/// Where and how batches of events are sent.
pub struct SeqCollector {
    api_key: Option<String>,
    event_body_limit_bytes: usize,
    batch_limit_bytes: usize,
    endpoint: String,
}

impl SeqCollector {
    pub closed spec fn spec_api_key(&self) -> Option<Seq<char>> {
        match self.api_key {
            Some(k) => Some(k@),
            None => None,
        }
    }

    pub closed spec fn spec_event_body_limit(&self) -> nat {
        self.event_body_limit_bytes as nat
    }

    pub closed spec fn spec_batch_limit(&self) -> nat {
        self.batch_limit_bytes as nat
    }

    pub closed spec fn spec_endpoint(&self) -> Seq<char> {
        self.endpoint@
    }

    /// A collector that sends to the server at `server_url`, with an optional
    /// API key and the two size limits.
    pub fn new(
        server_url: &str,
        api_key: Option<&str>,
        event_body_limit_bytes: usize,
        batch_limit_bytes: usize,
    ) -> (r: SeqCollector)
        ensures
            r.spec_endpoint() == endpoint_of(server_url@),
            r.spec_api_key() == (match api_key {
                Some(k) => Some(k@),
                None => None,
            }),
            r.spec_event_body_limit() == event_body_limit_bytes,
            r.spec_batch_limit() == batch_limit_bytes,
    {
        let key = match api_key {
            Some(k) => Some(k.to_owned()),
            None => None,
        };
        let mut endpoint = String::new();
        endpoint.append(server_url);
        let n = server_url.unicode_len();
        if n == 0 || server_url.get_char(n - 1) != '/' {
            endpoint.append("/");
        }
        endpoint.append("api/events/raw/");
        SeqCollector { api_key: key, event_body_limit_bytes, batch_limit_bytes, endpoint }
    }

    /// A collector for a server on this machine, with the default limits.
    pub fn new_local() -> (r: SeqCollector)
        ensures
            r.spec_endpoint() == endpoint_of(LOCAL_SERVER_URL@),
            r.spec_api_key() is None,
            r.spec_event_body_limit() == DEFAULT_EVENT_BODY_LIMIT_BYTES,
            r.spec_batch_limit() == DEFAULT_BATCH_LIMIT_BYTES,
    {
        Self::new(LOCAL_SERVER_URL, None, DEFAULT_EVENT_BODY_LIMIT_BYTES, DEFAULT_BATCH_LIMIT_BYTES)
    }

    /// The address that batches are posted to.
    pub fn endpoint(&self) -> (r: &str)
        ensures
            r@ == self.spec_endpoint(),
    {
        self.endpoint.as_str()
    }

    /// The key sent with each batch, if any.
    pub fn api_key(&self) -> (r: Option<&str>)
        ensures
            match r {
                Some(k) => self.spec_api_key() == Some(k@),
                None => self.spec_api_key() is None,
            },
    {
        match &self.api_key {
            Some(k) => Some(k.as_str()),
            None => None,
        }
    }

    pub fn event_body_limit_bytes(&self) -> (r: usize)
        ensures
            r == self.spec_event_body_limit(),
    {
        self.event_body_limit_bytes
    }

    pub fn batch_limit_bytes(&self) -> (r: usize)
        ensures
            r == self.spec_batch_limit(),
    {
        self.batch_limit_bytes
    }

    /// The request bodies to send for `events`, in order: each event is
    /// formatted under the per-event limit, and a batch is closed before an
    /// event that would take it over the batch limit.
    pub fn batch_bodies(&self, events: &[Event]) -> (r: Vec<String>)
        ensures
            r@.len() == batches_of(
                kept_fragments(events@, self.spec_event_body_limit()),
                self.spec_batch_limit(),
            ).len(),
            forall|k: int|
                0 <= k < r@.len() ==> #[trigger] r@[k]@ == batch_text(
                    batches_of(
                        kept_fragments(events@, self.spec_event_body_limit()),
                        self.spec_batch_limit(),
                    )[k],
                ),
    {
        let ghost body_limit = self.spec_event_body_limit();
        let ghost limit = self.spec_batch_limit();
        let mut out: Vec<String> = Vec::new();
        let mut next = String::new();
        next.append("{\"Events\":[");
        let mut empty = true;
        let ghost mut done: Seq<Seq<Seq<char>>> = Seq::empty();
        let ghost mut cur: Seq<Seq<char>> = Seq::empty();
        assert(events@.take(0) =~= Seq::<Event>::empty());
        assert(next@ =~= "{\"Events\":["@ + joined(cur));
        let mut i: usize = 0;
        while i < events.len()
            invariant
                i <= events.len(),
                body_limit == self.event_body_limit_bytes,
                limit == self.batch_limit_bytes,
                (done, cur) == plan(kept_fragments(events@.take(i as int), body_limit), limit),
                next@ == "{\"Events\":["@ + joined(cur),
                empty == (cur.len() == 0),
                out@.len() == done.len(),
                forall|k: int| 0 <= k < out@.len() ==> #[trigger] out@[k]@ == batch_text(done[k]),
            decreases events.len() - i,
        {
            let ghost seen = events@.take(i + 1);
            let ghost before = kept_fragments(events@.take(i as int), body_limit);
            assert(seen.drop_last() =~= events@.take(i as int));
            assert(seen.last() == events@[i as int]);
            let ghost done0 = done;
            let ghost out0 = out@;
            let outcome = format_event(&events[i], self.event_body_limit_bytes);
            let frag: Option<String> = match outcome {
                FormatOutcome::Normal(p) => Some(p),
                FormatOutcome::Placeholder(p) => Some(p),
                FormatOutcome::Dropped => None,
            };
            if let Some(p) = frag {
                assert(fragment_of(events@[i as int], body_limit) == Some(p@));
                assert(kept_fragments(seen, body_limit) == before.push(p@));
                assert(before.push(p@).drop_last() =~= before);
                let over = !empty && sum_exceeds(
                    byte_size(next.as_str()),
                    byte_size(","),
                    byte_size(p.as_str()),
                    byte_size("]}"),
                    self.batch_limit_bytes,
                );
                proof {
                    if !empty {
                        let c2 = cur.push(p@);
                        assert(c2.drop_last() =~= cur);
                        assert(batch_text(c2) =~= next@ + ","@ + p@ + "]}"@);
                        lemma_byte_len_concat(next@, ","@);
                        lemma_byte_len_concat(next@ + ","@, p@);
                        lemma_byte_len_concat(next@ + ","@ + p@, "]}"@);
                    }
                }
                if over {
                    let mut closed = next;
                    closed.append("]}");
                    out.push(closed);
                    next = String::new();
                    next.append("{\"Events\":[");
                    next.append(p.as_str());
                    proof {
                        done = done.push(cur);
                        cur = seq![p@];
                        assert(next@ =~= "{\"Events\":["@ + joined(cur));
                        assert forall|k: int| 0 <= k < out@.len() implies #[trigger] out@[k]@
                            == batch_text(done[k]) by {
                            if k < out0.len() {
                                assert(out@[k] == out0[k]);
                            }
                        }
                    }
                } else {
                    let ghost c2 = cur.push(p@);
                    assert(c2.drop_last() =~= cur);
                    if !empty {
                        next.append(",");
                        next.append(p.as_str());
                        assert(next@ =~= "{\"Events\":["@ + joined(c2));
                    } else {
                        next.append(p.as_str());
                        assert(next@ =~= "{\"Events\":["@ + joined(c2));
                    }
                    proof {
                        cur = c2;
                    }
                }
                empty = false;
            } else {
                assert(kept_fragments(seen, body_limit) == before);
            }
            i = i + 1;
        }
        assert(events@.take(i as int) =~= events@);
        next.append("]}");
        out.push(next);
        proof {
            let b = batches_of(kept_fragments(events@, body_limit), limit);
            assert(b == done.push(cur));
            assert forall|k: int| 0 <= k < out@.len() implies #[trigger] out@[k]@ == batch_text(
                b[k],
            ) by {
                if k < done.len() {
                }
            }
        }
        out
    }
}

} // verus!

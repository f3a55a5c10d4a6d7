//! What the library decides around calls to the local model server: the base
//! URL, error bodies, which errors mean "input too long", the lines of a
//! streamed answer, and the chat prompt.
use vstd::prelude::*;
use crate::document::to_ascii_lower;
use crate::text::{
    chars_of, decimal, decimal_chars, has_prefix, has_suffix, push_all, push_str, string_of,
    trim, trim_chars,
};

verus! {

/// The base URL used when none is configured.
pub const DEFAULT_BASE_URL: &'static str = "http://127.0.0.1:11434/api";

/// Most bytes of an error body kept in an error.
pub const ERROR_BODY_LIMIT: usize = 4096;

/// How many characters may separate the two words of a length complaint.
pub const NEAR_GAP: usize = 32;

/// Whether `w` occurs in `s` at position `i`.
pub open spec fn occurs_at(s: Seq<char>, w: Seq<char>, i: int) -> bool {
    0 <= i && i + w.len() <= s.len() && s.subrange(i, i + w.len()) == w
}

pub open spec fn contains_word(s: Seq<char>, w: Seq<char>) -> bool {
    exists|i: int| #[trigger] occurs_at(s, w, i)
}

/// One past the last character of `s` before `j` that is not a slash.
pub open spec fn end_not_slash(s: Seq<char>, j: int) -> int
    decreases j,
{
    if j <= 0 {
        0
    } else if s[j - 1] == '/' {
        end_not_slash(s, j - 1)
    } else {
        j
    }
}

/// The model server's base URL from a configured value: trimmed; `http://`
/// put in front when it names no scheme; trailing slashes removed; `/api`
/// appended unless it already ends so. A blank value gives the default.
pub open spec fn normalized_base(raw: Seq<char>) -> Seq<char> {
    let t = trim(raw, false);
    if t.len() == 0 {
        DEFAULT_BASE_URL@
    } else {
        let with_scheme = if contains_word(t, "://"@) {
            t
        } else {
            "http://"@ + t
        };
        let bare = with_scheme.subrange(0, end_not_slash(with_scheme, with_scheme.len() as int));
        if bare.len() >= 4 && bare.subrange(bare.len() - 4, bare.len() as int) == "/api"@ {
            bare
        } else {
            bare + "/api"@
        }
    }
}

fn find_word(v: &Vec<char>, w: &Vec<char>) -> (r: bool)
    ensures
        r == contains_word(v@, w@),
{
    if w.len() == 0 {
        assert(v@.subrange(0, 0) =~= w@);
        assert(occurs_at(v@, w@, 0));
        return true;
    }
    let mut i: usize = 0;
    while i < v.len()
        invariant
            w.len() > 0,
            i <= v.len(),
            forall|k: int| 0 <= k < i ==> !#[trigger] occurs_at(v@, w@, k),
        decreases v.len() - i,
    {
        if w.len() <= v.len() - i {
            let piece = crate::text::copy_range(v, i, i + w.len());
            if crate::document::same_chars(&piece, w) {
                assert(occurs_at(v@, w@, i as int));
                return true;
            }
        }
        i = i + 1;
    }
    assert forall|k: int| !#[trigger] occurs_at(v@, w@, k) by {
        if 0 <= k && k + w@.len() <= v@.len() {
            assert(k < i);
        }
    }
    false
}

/// Normalizes a configured base URL of the model server.
pub fn normalize_base_url(raw: &str) -> (r: String)
    ensures
        r@ == normalized_base(raw@),
{
    proof {
        reveal_strlit("/api");
    }
    let t = trim_chars(&chars_of(raw), false);
    if t.len() == 0 {
        return DEFAULT_BASE_URL.to_owned();
    }
    let mut with_scheme: Vec<char> = Vec::new();
    if !find_word(&t, &chars_of("://")) {
        push_str(&mut with_scheme, "http://");
    }
    push_all(&mut with_scheme, &t);
    let ghost ws = with_scheme@;
    assert(ws =~= (if contains_word(t@, "://"@) {
        t@
    } else {
        "http://"@ + t@
    }));
    let mut end: usize = with_scheme.len();
    while end > 0 && with_scheme[end - 1] == '/'
        invariant
            ws == with_scheme@,
            end <= with_scheme.len(),
            end_not_slash(with_scheme@, with_scheme.len() as int) == end_not_slash(
                with_scheme@,
                end as int,
            ),
        decreases end,
    {
        end = end - 1;
    }
    let mut bare = crate::text::copy_range(&with_scheme, 0, end);
    if !has_suffix(&bare, &chars_of("/api")) {
        push_str(&mut bare, "/api");
    }
    string_of(&bare)
}

/// The base URL in force: the first of the two configured values (the
/// explicit base URL, then the host) that is set and not blank, normalized;
/// the default otherwise.
pub open spec fn chosen_base(base_url: Option<Seq<char>>, host: Option<Seq<char>>) -> Seq<char> {
    match base_url {
        Some(b) if trim(b, false).len() > 0 => normalized_base(b),
        _ => match host {
            Some(h) if trim(h, false).len() > 0 => normalized_base(h),
            _ => DEFAULT_BASE_URL@,
        },
    }
}

pub fn choose_base_url(base_url: Option<&str>, host: Option<&str>) -> (r: String)
    ensures
        r@ == chosen_base(
            match base_url {
                Some(b) => Some(b@),
                None => None,
            },
            match host {
                Some(h) => Some(h@),
                None => None,
            },
        ),
{
    if let Some(b) = base_url {
        if trim_chars(&chars_of(b), false).len() > 0 {
            return normalize_base_url(b);
        }
    }
    if let Some(h) = host {
        if trim_chars(&chars_of(h), false).len() > 0 {
            return normalize_base_url(h);
        }
    }
    DEFAULT_BASE_URL.to_owned()
}

/// Bytes of a character in UTF-8.
pub open spec fn utf8_width(c: char) -> nat {
    if (c as u32) < 0x80 {
        1
    } else if (c as u32) < 0x800 {
        2
    } else if (c as u32) < 0x10000 {
        3
    } else {
        4
    }
}

pub open spec fn utf8_size(s: Seq<char>) -> nat
    decreases s.len(),
{
    if s.len() == 0 {
        0
    } else {
        utf8_size(s.drop_last()) + utf8_width(s.last())
    }
}

/// The longest run of whole characters from the start whose UTF-8 form fits in `limit` bytes.
pub open spec fn fits_prefix(s: Seq<char>, k: int, limit: nat) -> bool {
    0 <= k <= s.len() && utf8_size(s.subrange(0, k)) <= limit && (k == s.len() || utf8_size(
        s.subrange(0, k + 1),
    ) > limit)
}

/// The body of an error response, cut to at most `ERROR_BODY_LIMIT` bytes
/// without splitting a character.
pub fn truncate_error_body(body: &str) -> (r: String)
    ensures
        exists|k: int| fits_prefix(body@, k, ERROR_BODY_LIMIT as nat) && r@ == body@.subrange(0, k),
{
    let v = chars_of(body);
    let mut k: usize = 0;
    let mut size: usize = 0;
    while k < v.len()
        invariant
            v@ == body@,
            k <= v.len(),
            size == utf8_size(v@.subrange(0, k as int)),
            size <= ERROR_BODY_LIMIT,
        decreases v.len() - k,
    {
        let c = v[k];
        let w: usize = if (c as u32) < 0x80 {
            1
        } else if (c as u32) < 0x800 {
            2
        } else if (c as u32) < 0x10000 {
            3
        } else {
            4
        };
        assert(v@.subrange(0, k + 1).drop_last() =~= v@.subrange(0, k as int));
        if size + w > ERROR_BODY_LIMIT {
            assert(fits_prefix(v@, k as int, ERROR_BODY_LIMIT as nat));
            let r = string_of(&crate::text::copy_range(&v, 0, k));
            assert(r@ == body@.subrange(0, k as int));
            return r;
        }
        size = size + w;
        k = k + 1;
    }
    assert(v@.subrange(0, v.len() as int) =~= v@);
    assert(fits_prefix(v@, v.len() as int, ERROR_BODY_LIMIT as nat));
    let r = string_of(&v);
    assert(r@ == body@.subrange(0, v.len() as int));
    r
}

/// `b` starts at most `NEAR_GAP` characters after an occurrence of `a` ends.
pub open spec fn near(s: Seq<char>, a: Seq<char>, b: Seq<char>) -> bool {
    exists|i: int, j: int|
        #[trigger] occurs_at(s, a, i) && #[trigger] occurs_at(s, b, j) && i + a.len() <= j <= i
            + a.len() + NEAR_GAP
}

/// A body that complains about length: `context` near `length`, `too long` or
/// `limit`, or `input` near `too long`, `limit` or `tokens`, letters compared
/// without case.
pub open spec fn mentions_length(body: Seq<char>) -> bool {
    let s = crate::document::ascii_lower(body);
    near(s, "context"@, "length"@) || near(s, "context"@, "too long"@) || near(
        s,
        "context"@,
        "limit"@,
    ) || near(s, "input"@, "too long"@) || near(s, "input"@, "limit"@) || near(
        s,
        "input"@,
        "tokens"@,
    )
}

/// A response status that can mean the input was too large.
pub open spec fn length_status(status: u16) -> bool {
    status == 400 || status == 413 || status == 422
}

fn find_near(s: &Vec<char>, a: &str, b: &str) -> (r: bool)
    requires
        a@.len() > 0,
        b@.len() > 0,
    ensures
        r == near(s@, a@, b@),
{
    let av = chars_of(a);
    let bv = chars_of(b);
    let mut i: usize = 0;
    while i < s.len()
        invariant
            i <= s.len(),
            av@ == a@,
            bv@ == b@,
            a@.len() > 0,
            b@.len() > 0,
            forall|x: int, y: int|
                0 <= x < i ==> !(#[trigger] occurs_at(s@, a@, x) && #[trigger] occurs_at(s@, b@, y)
                    && x + a@.len() <= y <= x + a@.len() + NEAR_GAP),
        decreases s.len() - i,
    {
        if av.len() <= s.len() - i {
            let piece = crate::text::copy_range(s, i, i + av.len());
            if crate::document::same_chars(&piece, &av) {
                assert(occurs_at(s@, a@, i as int));
                let start = i + av.len();
                let mut j: usize = start;
                while j < s.len() && j - start <= NEAR_GAP
                    invariant
                        start == i + a@.len(),
                        start <= j <= s.len(),
                        av@ == a@,
                        bv@ == b@,
                        b@.len() > 0,
                        occurs_at(s@, a@, i as int),
                        forall|y: int| start <= y < j ==> !#[trigger] occurs_at(s@, b@, y),
                    decreases s.len() - j,
                {
                    if bv.len() <= s.len() - j {
                        let other = crate::text::copy_range(s, j, j + bv.len());
                        if crate::document::same_chars(&other, &bv) {
                            assert(occurs_at(s@, b@, j as int));
                            return true;
                        }
                    }
                    j = j + 1;
                }
                assert forall|y: int|
                    start <= y <= start + NEAR_GAP implies !#[trigger] occurs_at(s@, b@, y) by {
                    if y >= j {
                        assert(!(y + b@.len() <= s@.len()) || y > start + NEAR_GAP);
                    }
                }
            }
        }
        i = i + 1;
    }
    assert forall|x: int, y: int|
        !(#[trigger] occurs_at(s@, a@, x) && #[trigger] occurs_at(s@, b@, y) && x + a@.len() <= y
            <= x + a@.len() + NEAR_GAP) by {
        if occurs_at(s@, a@, x) {
            assert(x < i);
        }
    }
    false
}

/// Whether an error response says the input was too long for the model:
/// status 400, 413 or 422 with a body that complains about length.
pub fn is_length_error(status: u16, body: &str) -> (r: bool)
    ensures
        r == (length_status(status) && mentions_length(body@)),
{
    if !(status == 400 || status == 413 || status == 422) {
        return false;
    }
    proof {
        reveal_strlit("context");
        reveal_strlit("input");
        reveal_strlit("length");
        reveal_strlit("too long");
        reveal_strlit("limit");
        reveal_strlit("tokens");
    }
    let s = to_ascii_lower(&chars_of(body));
    find_near(&s, "context", "length") || find_near(&s, "context", "too long") || find_near(
        &s,
        "context",
        "limit",
    ) || find_near(&s, "input", "too long") || find_near(&s, "input", "limit") || find_near(
        &s,
        "input",
        "tokens",
    )
}

/// A line of a streamed answer.
#[derive(Clone, Debug)]
pub enum StreamLine {
    /// Nothing to read.
    Blank,
    /// The end of the stream.
    Finished,
    /// A JSON record.
    Record(String),
}

/// A line without surrounding whitespace and without a leading `data:`.
pub open spec fn stream_payload(line: Seq<char>) -> Seq<char> {
    let t = trim(line, false);
    if t.len() >= 5 && t.subrange(0, 5) == "data:"@ {
        trim(t.subrange(5, t.len() as int), false)
    } else {
        t
    }
}

pub open spec fn stream_line_spec(line: Seq<char>) -> (int, Seq<char>) {
    let p = stream_payload(line);
    if p.len() == 0 {
        (0, p)
    } else if p == "[DONE]"@ {
        (1, p)
    } else {
        (2, p)
    }
}

/// Reads one line of a streamed answer: blank, the `[DONE]` terminator, or a
/// JSON record, each possibly after `data:`.
pub fn classify_stream_line(line: &str) -> (r: StreamLine)
    ensures
        match r {
            StreamLine::Blank => stream_line_spec(line@).0 == 0,
            StreamLine::Finished => stream_line_spec(line@).0 == 1,
            StreamLine::Record(j) => stream_line_spec(line@) == (2int, j@),
        },
{
    proof {
        reveal_strlit("data:");
    }
    let t = trim_chars(&chars_of(line), false);
    let p = if has_prefix(&t, &chars_of("data:")) {
        trim_chars(&crate::text::copy_range(&t, 5, t.len()), false)
    } else {
        t
    };
    if p.len() == 0 {
        StreamLine::Blank
    } else if crate::document::spells(&p, "[DONE]") {
        StreamLine::Finished
    } else {
        StreamLine::Record(string_of(&p))
    }
}

/// What a streamed record asks for.
#[derive(Clone, Debug)]
pub enum StreamStep {
    /// The server reported an error: the stream fails with it.
    Fail(String),
    /// Hand this piece of the answer to the caller; `done` ends the stream after it.
    Delta(String, bool),
    /// Nothing to hand on; `done` ends the stream.
    Quiet(bool),
}

/// The answer gathered from a stream so far.
pub struct ChatStream {
    pub answer: String,
}

impl ChatStream {
    pub fn new() -> (r: ChatStream)
        ensures
            r.answer@ == Seq::<char>::empty(),
    {
        ChatStream { answer: String::new() }
    }

    /// Takes one parsed record: its `error`, its `message.content`, its `done`
    /// flag. An error fails the stream; non-empty content is appended to the
    /// answer and handed on.
    pub fn on_record(&mut self, error: Option<String>, content: Option<String>, done: bool) -> (r:
        StreamStep)
        ensures
            match error {
                Some(e) => r == StreamStep::Fail(e) && final(self).answer@ == old(self).answer@,
                None => match content {
                    Some(c) if c@.len() > 0 => r == StreamStep::Delta(c, done)
                        && final(self).answer@ == old(self).answer@ + c@,
                    _ => r == StreamStep::Quiet(done) && final(self).answer@ == old(self).answer@,
                },
            },
    {
        match error {
            Some(e) => StreamStep::Fail(e),
            None => match content {
                Some(c) => {
                    if c.as_str().is_empty() {
                        StreamStep::Quiet(done)
                    } else {
                        let mut acc = chars_of(self.answer.as_str());
                        push_str(&mut acc, c.as_str());
                        self.answer = string_of(&acc);
                        StreamStep::Delta(c, done)
                    }
                },
                None => StreamStep::Quiet(done),
            },
        }
    }
}


/// What is sent to the embedding endpoint: one text or several.
#[derive(Clone, Debug)]
pub enum EmbedInput {
    One(String),
    Many(Vec<String>),
}

impl From<String> for EmbedInput {
    fn from(v: String) -> Self {
        EmbedInput::One(v)
    }
}

impl vstd::std_specs::convert::FromSpecImpl<String> for EmbedInput {
    open spec fn obeys_from_spec() -> bool {
        true
    }

    open spec fn from_spec(v: String) -> Self {
        EmbedInput::One(v)
    }
}

impl From<Vec<String>> for EmbedInput {
    fn from(v: Vec<String>) -> Self {
        EmbedInput::Many(v)
    }
}

impl vstd::std_specs::convert::FromSpecImpl<Vec<String>> for EmbedInput {
    open spec fn obeys_from_spec() -> bool {
        true
    }

    open spec fn from_spec(v: Vec<String>) -> Self {
        EmbedInput::Many(v)
    }
}

impl EmbedInput {
    /// How many vectors the server is asked for.
    pub fn count(&self) -> (r: usize)
        ensures
            r == match self {
                EmbedInput::One(_) => 1,
                EmbedInput::Many(v) => v.len(),
            },
    {
        match self {
            EmbedInput::One(_) => 1,
            EmbedInput::Many(v) => v.len(),
        }
    }
}

/// One message of a chat exchange.
#[derive(Clone, Debug)]
pub struct ChatMessage {
    pub role: String,
    pub content: String,
}

/// The instructions given to the chat model.
pub const SYSTEM_PROMPT: &'static str = "You are a RAG assistant. Answer only using the provided sources. If the sources do not contain the answer, say you don't know. Cite sources in brackets [1], [2], etc. Respond in the same language as the user's question.";

/// A retrieved passage as the prompt cites it.
#[derive(Clone, Debug)]
pub struct PromptSource {
    pub file_path: String,
    /// 0-based page number.
    pub page: u32,
    pub snippet: String,
}

/// The entry of source number `n` (1-based): its number, path, 1-based page and text.
pub open spec fn source_entry(n: nat, s: PromptSource) -> Seq<char> {
    "\n["@ + decimal(n) + "] "@ + s.file_path@ + " (page "@ + decimal(s.page as nat + 1) + ")\n"@
        + s.snippet@ + "\n"@
}

/// The entries of all sources, numbered from 1.
pub open spec fn context_block(ss: Seq<PromptSource>) -> Seq<char>
    decreases ss.len(),
{
    if ss.len() == 0 {
        seq![]
    } else {
        context_block(ss.drop_last()) + source_entry(ss.len(), ss.last())
    }
}

/// The question and the numbered sources, as the user message.
pub open spec fn user_prompt(question: Seq<char>, ss: Seq<PromptSource>) -> Seq<char> {
    "Question:\n"@ + question + "\n\nSources:\n"@ + context_block(ss)
        + "\n\nAnswer with citations [1], [2]:"@
}

/// The messages of a chat request: the instructions, then the question with
/// the retrieved sources.
pub fn chat_messages(question: &str, sources: &Vec<PromptSource>) -> (r: Vec<ChatMessage>)
    ensures
        r.len() == 2,
        r[0].role@ == "system"@,
        r[0].content@ == SYSTEM_PROMPT@,
        r[1].role@ == "user"@,
        r[1].content@ == user_prompt(question@, sources@),
{
    let mut block: Vec<char> = Vec::new();
    let mut i: usize = 0;
    while i < sources.len()
        invariant
            i <= sources.len(),
            block@ == context_block(sources@.subrange(0, i as int)),
        decreases sources.len() - i,
    {
        let s = &sources[i];
        let ghost before = block@;
        push_str(&mut block, "\n[");
        push_all(&mut block, &decimal_chars(i as u64 + 1));
        push_str(&mut block, "] ");
        push_str(&mut block, s.file_path.as_str());
        push_str(&mut block, " (page ");
        push_all(&mut block, &decimal_chars(s.page as u64 + 1));
        push_str(&mut block, ")\n");
        push_str(&mut block, s.snippet.as_str());
        push_str(&mut block, "\n");
        assert(sources@.subrange(0, i + 1).drop_last() =~= sources@.subrange(0, i as int));
        assert(block@ =~= before + source_entry((i + 1) as nat, sources@[i as int]));
        i = i + 1;
    }
    assert(sources@.subrange(0, sources.len() as int) =~= sources@);
    let mut user: Vec<char> = Vec::new();
    push_str(&mut user, "Question:\n");
    push_str(&mut user, question);
    push_str(&mut user, "\n\nSources:\n");
    push_all(&mut user, &block);
    push_str(&mut user, "\n\nAnswer with citations [1], [2]:");
    assert(user@ =~= user_prompt(question@, sources@));
    let mut out: Vec<ChatMessage> = Vec::new();
    out.push(ChatMessage { role: "system".to_owned(), content: SYSTEM_PROMPT.to_owned() });
    out.push(ChatMessage { role: "user".to_owned(), content: string_of(&user) });
    out
}

} // verus!

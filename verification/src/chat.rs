//! Conversation over the indexed documents: what travels to the model, and what comes back.

use vstd::prelude::*;
use vstd::slice::slice_subrange;

use crate::endpoint::{local_endpoint, url_host, NonLocalEndpoint};
use crate::json::{
    json_entry, json_entry_text, json_escape, json_escaped, json_object, json_quote, json_reply, json_string,
    lemma_json_reply_line,
};
use crate::salvage::salvaged;
use crate::score::Score;
use crate::search::{
    format_results_numbered, printed_results, result_data, ResultData, SearchResult,
};
use crate::split::{lemma_one_piece, lemma_pieces_parted, only, pieces, split_char};
use crate::text::{
    begins, chars_of, drop_leading, drop_trailing, is_space, join_strings, joined, lists, one_of,
    optional, owned, same_chars, same_text, spaces, starts_with, string_of, strings, trim,
    trim_end_of, trim_slice,
};
use crate::vision::{
    accept_reply, chat, completions_url, excerpt_of, posts, reply_body, reply_content, ReplyError,
    Request, VisionConfig,
};

pub use crate::salvage::{extract_answer, find_answer_value_start, pick_answer, quoted_answer};
pub use crate::session::{ChatMeta, ChatSession};

verus! {

// ---------------------------------------------------------------------------------------------
// The thread

/// How many turns of the exchange travel back to the model with each question. Retrieval happens
/// fresh every turn, so that history carries the thread of the conversation and not its evidence.
pub const HISTORY_TURNS: usize = 12;

/// One turn, as the user typed it or the assistant answered.
#[derive(Debug)]
pub struct ChatTurn {
    pub role: String,
    pub content: String,
}

#[verifier::ext_equal]
pub struct TurnData {
    pub role: Seq<char>,
    pub content: Seq<char>,
}

impl View for ChatTurn {
    type V = TurnData;

    open spec fn view(&self) -> TurnData {
        TurnData { role: self.role@, content: self.content@ }
    }
}

impl Clone for ChatTurn {
    fn clone(&self) -> (r: Self)
        ensures
            r@ == self@,
    {
        ChatTurn { role: self.role.clone(), content: self.content.clone() }
    }
}

/// Two turns with the same contents agree in both fields.
pub proof fn contents_tell_turns_apart(a: ChatTurn, b: ChatTurn)
    requires
        a@ == b@,
    ensures
        a.role@ == b.role@,
        a.content@ == b.content@,
{
}

/// The contents of turns.
pub open spec fn turn_data(turns: Seq<ChatTurn>) -> Seq<TurnData> {
    Seq::new(turns.len(), |i: int| turns[i]@)
}

/// A question of the user.
pub open spec fn question_turn(question: Seq<char>) -> TurnData {
    TurnData { role: "user"@, content: question }
}

/// An answer of the assistant.
pub open spec fn answer_turn(answer: Seq<char>) -> TurnData {
    TurnData { role: "assistant"@, content: answer }
}

/// The transcript that a question is put behind: where an answer is asked for again, the one that
/// is replaced is left out.
pub open spec fn kept_history(history: Seq<TurnData>, regenerate: bool) -> Seq<TurnData> {
    if regenerate && history.len() > 0 && history.last().role == "assistant"@ {
        history.drop_last()
    } else {
        history
    }
}

/// The transcript with the question at its end, where it does not already end in it.
pub open spec fn asked(turns: Seq<TurnData>, question: Seq<char>) -> Seq<TurnData> {
    if turns.len() > 0 && turns.last() == question_turn(question) {
        turns
    } else {
        turns.push(question_turn(question))
    }
}

/// The last turns of a transcript.
pub open spec fn recent(turns: Seq<TurnData>) -> Seq<TurnData> {
    if turns.len() > HISTORY_TURNS {
        turns.skip(turns.len() - HISTORY_TURNS)
    } else {
        turns
    }
}

/// What travels to the model of a conversation.
pub open spec fn travelling(
    history: Seq<TurnData>,
    question: Seq<char>,
    regenerate: bool,
) -> Seq<TurnData> {
    recent(asked(kept_history(history, regenerate), question))
}

/// What travels to the model: the transcript and this question, cut to the last turns. Asking again
/// drops the answer that is replaced but keeps its question.
pub fn thread(history: &[ChatTurn], question: &str, regenerate: bool) -> (r: Vec<ChatTurn>)
    ensures
        turn_data(r@) == travelling(turn_data(history@), question@, regenerate),
        0 < r@.len() <= 12,
        r@.last().role@ == "user"@,
        r@.last().content@ == question@,
        ({
            let ended = regenerate && history@.len() > 0 && history@.last().role@ == "assistant"@;
            let n = history@.len() - (if ended {
                1int
            } else {
                0int
            });
            let stands = n > 0 && history@[n - 1].role@ == "user"@ && history@[n - 1].content@
                == question@;
            let kept = n - (if stands {
                1int
            } else {
                0int
            });
            &&& r@.len() - 1 == (if kept < 11 {
                kept
            } else {
                11
            })
            &&& forall|k: int|
                0 <= k < r@.len() - 1 ==> (#[trigger] r@[k]).role@ == history@[kept - (r@.len() - 1)
                    + k].role@ && r@[k].content@ == history@[kept - (r@.len() - 1) + k].content@
        }),
{
    let ghost all = turn_data(history@);
    let mut end: usize = history.len();
    if regenerate && end > 0 && same_text(history[end - 1].role.as_str(), "assistant") {
        end = end - 1;
    }
    let ghost kept = all.take(end as int);
    assert(kept =~= kept_history(all, regenerate));
    let present: bool = end > 0 && same_text(history[end - 1].role.as_str(), "user") && same_text(
        history[end - 1].content.as_str(),
        question,
    );
    let ghost whole = asked(kept, question@);
    assert(present == (kept.len() > 0 && kept.last() == question_turn(question@)));
    let room: usize = if present {
        HISTORY_TURNS
    } else {
        HISTORY_TURNS - 1
    };
    let start: usize = if end > room {
        end - room
    } else {
        0
    };
    let mut out: Vec<ChatTurn> = Vec::new();
    let mut i: usize = start;
    assert(turn_data(out@) =~= kept.subrange(start as int, start as int));
    while i < end
        invariant
            start <= i <= end,
            end <= history@.len(),
            all == turn_data(history@),
            kept == all.take(end as int),
            turn_data(out@) == kept.subrange(start as int, i as int),
        decreases end - i,
    {
        let ghost before = turn_data(out@);
        let turn = history[i].clone();
        out.push(turn);
        assert(turn_data(out@) =~= before.push(turn@));
        assert(turn_data(out@) =~= kept.subrange(start as int, i + 1));
        i += 1;
    }
    if !present {
        let ghost before = turn_data(out@);
        let turn = ChatTurn { role: owned("user"), content: owned(question) };
        out.push(turn);
        assert(turn_data(out@) =~= before.push(question_turn(question@)));
    }
    assert(turn_data(out@) =~= recent(whole));
    proof {
        let kept_turns = if present {
            end - 1
        } else {
            end as int
        };
        let n = out@.len() - 1;
        assert(out@.last()@ == recent(whole).last());
        assert forall|k: int| 0 <= k < n implies (#[trigger] out@[k]).role@ == history@[kept_turns
            - n + k].role@ && out@[k].content@ == history@[kept_turns - n + k].content@ by {
            assert(out@[k]@ == turn_data(out@)[k]);
            assert(recent(whole)[k] == all[kept_turns - n + k]);
            assert(all[kept_turns - n + k] == history@[kept_turns - n + k]@);
        }
    }
    out
}

/// The turns that travel are the latest ones, in their order: those of the transcript and then the
/// question, as many as the limit allows.
pub proof fn the_latest_turns_travel(history: Seq<TurnData>, question: Seq<char>, k: int)
    requires
        0 <= k < history.len(),
        history.last() != question_turn(question),
    ensures
        ({
            let turns = travelling(history, question, false);
            let answered = travelling(history.push(answer_turn(question)), question, true);
            &&& history.len() < 12 ==> turns == history.push(question_turn(question))
            &&& history.len() >= 12 ==> turns.len() == 12
            &&& k >= history.len() - 11 ==> turns[turns.len() - 1 - (history.len() - k)]
                == history[k]
            &&& answered == turns
        }),
{
    assert(history.push(answer_turn(question)).drop_last() =~= history);
}

/// A question is one of the user and an answer one of the assistant, and the model is told so.
pub proof fn turns_are_told_apart(text: Seq<char>)
    ensures
        question_turn(text).role == "user"@,
        question_turn(text).content == text,
        answer_turn(text).role == "assistant"@,
        answer_turn(text).content == text,
        spoken(question_turn(text)) == "User: "@ + text + "\n"@,
        spoken(answer_turn(text)) == "Assistant: "@ + text + "\n"@,
{
    reveal_strlit("user");
    reveal_strlit("assistant");
    reveal_strlit("User");
    reveal_strlit("Assistant");
    reveal_strlit(": ");
    reveal_strlit("User: ");
    reveal_strlit("Assistant: ");
    reveal_strlit("\n");
    assert("user"@[0] != "assistant"@[0]);
    assert("User"@ + ": "@ =~= "User: "@);
    assert("Assistant"@ + ": "@ =~= "Assistant: "@);
    assert("\n"@ =~= seq!['\n']);
}

/// The question always travels, as the last turn; no more turns travel than the limit says.
pub proof fn the_question_travels_last(
    history: Seq<TurnData>,
    question: Seq<char>,
    regenerate: bool,
)
    ensures
        ({
            let turns = travelling(history, question, regenerate);
            &&& 0 < turns.len() <= HISTORY_TURNS
            &&& turns.last() == question_turn(question)
        }),
{
}

/// Asking again about an answered question puts the question once: what travels is what travelled
/// when it was asked first.
pub proof fn asking_again_asks_once(
    history: Seq<TurnData>,
    question: Seq<char>,
    answer: Seq<char>,
)
    ensures
        ({
            let before = asked(history, question);
            travelling(before.push(answer_turn(answer)), question, true) == travelling(
                history,
                question,
                false,
            )
        }),
{
    let before = asked(history, question);
    assert(before.push(answer_turn(answer)).drop_last() =~= before);
    assert(asked(before, question) == before);
}

// ---------------------------------------------------------------------------------------------
// The prompt

pub const SYSTEM_PROMPT: &'static str = "You answer questions about the user's documents using ONLY the numbered passages provided. Quote passage numbers as [1], [2] when you use them. Format the answer in markdown: headings, **bold**, *italic*, lists, tables and fenced code blocks. Draw a flow or process as a fenced mermaid block; draw any other vector graphic as a fenced svg block holding self-contained <svg> markup. If the passages do not contain the answer, say so. Answer in the language of the question.";

pub const ANSWER_REQUEST: &'static str = "\nAnswer the last question using only the passages above, citing passage numbers like [2]. Reply with a JSON object: {\"answer\": \"your answer in markdown\"}. No text before or after the JSON.";

/// A turn as the model reads it.
pub open spec fn spoken(turn: TurnData) -> Seq<char> {
    (if turn.role == "user"@ {
        "User"@
    } else {
        "Assistant"@
    }) + ": "@ + turn.content + seq!['\n']
}

/// The turns as the model reads them.
pub open spec fn transcript(turns: Seq<TurnData>) -> Seq<char>
    decreases turns.len(),
{
    if turns.len() == 0 {
        Seq::empty()
    } else {
        transcript(turns.drop_last()) + spoken(turns.last())
    }
}

/// The prompt: recent turns, the passages that were found for the question, and what is asked for.
pub open spec fn prompt_text(turns: Seq<TurnData>, results: Seq<ResultData>) -> Seq<char> {
    transcript(turns) + "\nPassages:\n"@ + printed_results(results, true) + ANSWER_REQUEST@
}

/// Builds the prompt. The thread goes in as plain text, since no chat template is assumed.
pub fn chat_prompt(turns: &[ChatTurn], results: &[SearchResult]) -> (r: String)
    ensures
        r@ == prompt_text(turn_data(turns@), result_data(results@)),
{
    let ghost all = turn_data(turns@);
    let mut out = String::new();
    let mut i: usize = 0;
    assert(out@ =~= transcript(all.take(0)));
    while i < turns.len()
        invariant
            i <= turns.len(),
            all == turn_data(turns@),
            out@ == transcript(all.take(i as int)),
        decreases turns.len() - i,
    {
        let turn = &turns[i];
        let ghost before = out@;
        if same_text(turn.role.as_str(), "user") {
            out.push_str("User");
        } else {
            out.push_str("Assistant");
        }
        out.push_str(": ");
        out.push_str(turn.content.as_str());
        out.push('\n');
        assert(out@ =~= before + spoken(turn@));
        assert(all.take(i + 1).drop_last() =~= all.take(i as int));
        assert(all.take(i + 1).last() == turn@);
        i += 1;
    }
    assert(all.take(turns.len() as int) =~= all);
    out.push_str("\nPassages:\n");
    out.push_str(format_results_numbered(results).as_str());
    out.push_str(ANSWER_REQUEST);
    out
}

/// The body of a chat request.
pub open spec fn chat_body(model: Seq<char>, prompt: Seq<char>) -> Seq<char> {
    "{\"messages\":[{\"content\":"@ + json_string(SYSTEM_PROMPT@)
        + ",\"role\":\"system\"},{\"content\":"@ + json_string(prompt)
        + ",\"role\":\"user\"}],\"model\":"@ + json_string(model) + ",\"stream\":true}"@
}

/// A request carries the prompt as what the user says, behind the instructions as what the system
/// says; it names the model, and asks for a stream.
pub proof fn requests_carry_the_prompt(model: Seq<char>, prompt: Seq<char>)
    ensures
        ({
            let said = "{\"messages\":["@ + message("system"@, SYSTEM_PROMPT@) + ","@ + message(
                "user"@,
                prompt,
            ) + "],"@;
            chat_body(model, prompt) == said + "\"model\":"@ + json_string(model)
                + ",\"stream\":true}"@
        }),
{
    reveal_strlit("{\"messages\":[{\"content\":");
    reveal_strlit("{\"messages\":[");
    reveal_strlit(",\"role\":\"system\"},{\"content\":");
    reveal_strlit(",\"role\":\"user\"}],\"model\":");
    reveal_strlit("{\"content\":");
    reveal_strlit(",\"role\":");
    reveal_strlit("}");
    reveal_strlit(",");
    reveal_strlit("],");
    reveal_strlit("\"model\":");
    reveal_strlit("system");
    reveal_strlit("user");
    lemma_plain_string("system"@);
    lemma_plain_string("user"@);
    assert("{\"messages\":[{\"content\":"@ =~= "{\"messages\":["@ + "{\"content\":"@);
    assert(",\"role\":\"system\"},{\"content\":"@ =~= ",\"role\":"@ + json_string("system"@) + "}"@
        + ","@ + "{\"content\":"@);
    assert(",\"role\":\"user\"}],\"model\":"@ =~= ",\"role\":"@ + json_string("user"@) + "}"@
        + "],"@ + "\"model\":"@);
    let said = "{\"messages\":["@ + message("system"@, SYSTEM_PROMPT@) + ","@ + message(
        "user"@,
        prompt,
    ) + "],"@;
    assert(chat_body(model, prompt) =~= said + "\"model\":"@ + json_string(model)
        + ",\"stream\":true}"@);
}

/// A message as a request writes it.
pub open spec fn message(role: Seq<char>, content: Seq<char>) -> Seq<char> {
    "{\"content\":"@ + json_string(content) + ",\"role\":"@ + json_string(role) + "}"@
}

/// A text without quotes, backslashes and control characters is escaped as it is.
proof fn lemma_plain_string(text: Seq<char>)
    requires
        forall|i: int|
            0 <= i < text.len() ==> (#[trigger] text[i]) != '"' && text[i] != '\\' && (
            text[i] as u32) >= 32,
    ensures
        json_string(text) == seq!['"'] + text + seq!['"'],
    decreases text.len(),
{
    if text.len() > 0 {
        let rest = text.skip(1);
        assert forall|i: int| 0 <= i < rest.len() implies (#[trigger] rest[i]) != '"' && rest[i]
            != '\\' && (rest[i] as u32) >= 32 by {
            assert(rest[i] == text[i + 1]);
        }
        lemma_plain_string(rest);
        assert(text[0] != '"' && text[0] != '\\' && (text[0] as u32) >= 32);
        assert(json_escape(text[0]) == seq![text[0]]);
        let inner = json_string(rest);
        assert(json_escaped(rest) =~= inner.subrange(1, inner.len() - 1));
        assert(rest =~= inner.subrange(1, inner.len() - 1));
        assert(seq![text[0]] + rest =~= text);
    } else {
        assert(json_escaped(text) =~= text);
    }
}

/// The turns stand in the prompt in the order in which they were said.
pub proof fn turns_stand_in_order(a: Seq<TurnData>, b: Seq<TurnData>, t: TurnData)
    ensures
        transcript(a + b) == transcript(a) + transcript(b),
        transcript(seq![t]) == spoken(t),
    decreases b.len(),
{
    let one = seq![t];
    assert(one.drop_last() =~= Seq::<TurnData>::empty());
    assert(transcript(one.drop_last()) + spoken(t) =~= spoken(t));
    if b.len() == 0 {
        assert(a + b =~= a);
        assert(transcript(a) + transcript(b) =~= transcript(a));
    } else {
        turns_stand_in_order(a, b.drop_last(), t);
        assert((a + b).drop_last() =~= a + b.drop_last());
        assert(transcript(a) + (transcript(b.drop_last()) + spoken(b.last())) =~= transcript(a)
            + transcript(b.drop_last()) + spoken(b.last()));
    }
}

/// The line of the question stands directly in front of the passages, and the request for the
/// answer behind them: what travels before the question comes first, and the prompt ends in the
/// request.
pub proof fn the_question_stands_before_the_passages(
    history: Seq<TurnData>,
    question: Seq<char>,
    regenerate: bool,
    results: Seq<ResultData>,
)
    ensures
        ({
            let turns = travelling(history, question, regenerate);
            prompt_text(turns, results) == transcript(turns.drop_last()) + "User: "@ + question
                + seq!['\n'] + "\nPassages:\n"@ + printed_results(results, true) + ANSWER_REQUEST@
        }),
{
    the_question_travels_last(history, question, regenerate);
    let turns = travelling(history, question, regenerate);
    let front = turns.drop_last();
    turns_stand_in_order(front, seq![turns.last()], turns.last());
    assert(front + seq![turns.last()] =~= turns);
    reveal_strlit("User");
    reveal_strlit(": ");
    reveal_strlit("User: ");
    assert("User"@ + ": "@ =~= "User: "@);
    assert(transcript(turns) =~= transcript(front) + "User: "@ + question + seq!['\n']);
}

/// Prepares one round of chat: the question has already been grounded in the documents, so this
/// builds the thread and puts it to the model together with the passages. `question` is what the
/// user typed now, and `history` everything before it; with `regenerate` the last question of the
/// transcript is answered again.
pub fn answer(
    config: &VisionConfig,
    question: &str,
    history: &[ChatTurn],
    results: &[SearchResult],
    regenerate: bool,
) -> (r: Result<Request, NonLocalEndpoint>)
    ensures
        ({
            let url = completions_url(config.base_url@);
            let turns = travelling(turn_data(history@), question@, regenerate);
            let prompt = prompt_text(turns, result_data(results@));
            match r {
                Ok(request) => local_endpoint(url) && posts(
                    request,
                    config@,
                    chat_body(config.model@, prompt),
                ),
                Err(error) => !local_endpoint(url) && error.host@ == url_host(url),
            }
        }),
{
    let turns = thread(history, question, regenerate);
    let prompt = chat_prompt(turns.as_slice(), results);
    let mut body = owned("{\"messages\":[{\"content\":");
    body.push_str(json_quote(SYSTEM_PROMPT).as_str());
    body.push_str(",\"role\":\"system\"},{\"content\":");
    body.push_str(json_quote(prompt.as_str()).as_str());
    body.push_str(",\"role\":\"user\"}],\"model\":");
    body.push_str(json_quote(config.model.as_str()).as_str());
    body.push_str(",\"stream\":true}");
    chat(config, body)
}

// ---------------------------------------------------------------------------------------------
// The reply

/// What an inline citation needs of a passage.
#[derive(Debug)]
pub struct Source {
    pub id: String,
    pub filename: String,
    pub page: i32,
    pub kind: String,
    pub score: Score,
    pub figure: bool,
}

#[verifier::ext_equal]
pub struct SourceData {
    pub id: Seq<char>,
    pub filename: Seq<char>,
    pub page: i32,
    pub kind: Seq<char>,
    pub score: Score,
    pub figure: bool,
}

impl View for Source {
    type V = SourceData;

    open spec fn view(&self) -> SourceData {
        SourceData {
            id: self.id@,
            filename: self.filename@,
            page: self.page,
            kind: self.kind@,
            score: self.score,
            figure: self.figure,
        }
    }
}

/// Two sources with the same contents agree in every field.
pub proof fn contents_tell_sources_apart(a: Source, b: Source)
    requires
        a@ == b@,
    ensures
        a.id@ == b.id@,
        a.filename@ == b.filename@,
        a.page == b.page,
        a.kind@ == b.kind@,
        a.score == b.score,
        a.figure == b.figure,
{
}

/// The contents of sources.
pub open spec fn source_data(sources: Seq<Source>) -> Seq<SourceData> {
    Seq::new(sources.len(), |i: int| sources[i]@)
}

/// The sources of passages: one each, in their order, so that the number of a citation finds its
/// passage.
pub open spec fn cited(results: Seq<ResultData>) -> Seq<SourceData> {
    Seq::new(
        results.len(),
        |i: int|
            SourceData {
                id: results[i].id,
                filename: results[i].filename,
                page: results[i].page,
                kind: results[i].score_kind,
                score: results[i].score,
                figure: results[i].figure,
            },
    )
}

/// The citation data of the passages.
pub fn sources_of(results: &[SearchResult]) -> (r: Vec<Source>)
    ensures
        source_data(r@) == cited(result_data(results@)),
        r@.len() == results@.len(),
        forall|i: int|
            0 <= i < results@.len() ==> {
                &&& (#[trigger] r@[i]).id@ == results@[i].id@
                &&& r@[i].filename@ == results@[i].filename@
                &&& r@[i].page == results@[i].page
                &&& r@[i].kind@ == results@[i].score_kind@
                &&& r@[i].score == results@[i].score
                &&& r@[i].figure == results@[i].figure
            },
{
    let ghost all = cited(result_data(results@));
    let mut out: Vec<Source> = Vec::new();
    let mut i: usize = 0;
    while i < results.len()
        invariant
            i <= results.len(),
            all == cited(result_data(results@)),
            source_data(out@) == all.take(i as int),
            out@.len() == i,
            forall|k: int|
                0 <= k < i ==> {
                    &&& (#[trigger] out@[k]).id@ == results@[k].id@
                    &&& out@[k].filename@ == results@[k].filename@
                    &&& out@[k].page == results@[k].page
                    &&& out@[k].kind@ == results@[k].score_kind@
                    &&& out@[k].score == results@[k].score
                    &&& out@[k].figure == results@[k].figure
                },
        decreases results.len() - i,
    {
        let ghost before = source_data(out@);
        let result = &results[i];
        let source = Source {
            id: result.id.clone(),
            filename: result.filename.clone(),
            page: result.page,
            kind: owned(result.score_kind),
            score: result.score,
            figure: result.figure,
        };
        out.push(source);
        assert(source_data(out@) =~= before.push(source@));
        assert(source@ == all[i as int]);
        assert(source_data(out@) =~= all.take(i + 1));
        i += 1;
    }
    assert(source_data(out@) =~= all);
    out
}

/// One step of an answer.
#[derive(Debug)]
pub enum ChatEvent {
    /// A piece of the model's text.
    Token { token: String },
    /// The answer with its citations.
    Done { answer: String, sources: Vec<Source> },
    Error { message: String },
    /// The user stopped the exchange, which is neither shown nor kept.
    Cancelled,
}

pub enum EventData {
    Token(Seq<char>),
    Done(Seq<char>, Seq<SourceData>),
    Error(Seq<char>),
    Cancelled,
}

impl View for ChatEvent {
    type V = EventData;

    open spec fn view(&self) -> EventData {
        match self {
            ChatEvent::Token { token } => EventData::Token(token@),
            ChatEvent::Done { answer, sources } => EventData::Done(answer@, source_data(sources@)),
            ChatEvent::Error { message } => EventData::Error(message@),
            ChatEvent::Cancelled => EventData::Cancelled,
        }
    }
}

/// Two events with the same contents are of the same kind and say the same.
pub proof fn contents_tell_events_apart(a: ChatEvent, b: ChatEvent)
    requires
        a@ == b@,
    ensures
        a matches ChatEvent::Token { token: t } ==> b matches ChatEvent::Token { token: u } && t@
            == u@,
        a matches ChatEvent::Done { answer: t, sources: s } ==> b matches ChatEvent::Done {
            answer: u,
            sources: v,
        } && t@ == u@ && source_data(s@) == source_data(v@),
        a matches ChatEvent::Error { message: t } ==> b matches ChatEvent::Error { message: u }
            && t@ == u@,
        a is Cancelled ==> b is Cancelled,
{
}

/// The contents of events.
pub open spec fn event_data(events: Seq<ChatEvent>) -> Seq<EventData> {
    Seq::new(events.len(), |i: int| events[i]@)
}

/// What a line of an event stream carries.
pub open spec fn carried(line: Seq<char>) -> Option<Seq<char>> {
    let text = drop_trailing(line, one_of(seq!['\r']));
    if starts_with(text, "data:"@) {
        Some(trim(text.skip(5)))
    } else {
        None
    }
}

/// What the lines from `i` on carry, up to the mark that ends the stream.
pub open spec fn frames_from(lines: Seq<Seq<char>>, i: int) -> Seq<Seq<char>>
    decreases lines.len() - i,
{
    if i >= lines.len() {
        Seq::empty()
    } else {
        match carried(lines[i]) {
            Some(data) => if data == "[DONE]"@ {
                Seq::empty()
            } else {
                seq![data] + frames_from(lines, i + 1)
            },
            None => frames_from(lines, i + 1),
        }
    }
}

/// Some line carries something: the text is an event stream.
pub open spec fn is_stream(lines: Seq<Seq<char>>) -> bool {
    exists|i: int| 0 <= i < lines.len() && carried(#[trigger] lines[i]) is Some
}

/// The frames of a reply, where it is an event stream.
pub open spec fn stream_frames(text: Seq<char>) -> Option<Seq<Seq<char>>> {
    let lines = pieces(text, only('\n'));
    if is_stream(lines) {
        Some(frames_from(lines, 0))
    } else {
        None
    }
}

/// The frames of a stream come in the order of its lines. What stands behind the mark that ends the
/// stream is not read, and a line that carries nothing brings no frame.
pub proof fn frames_come_in_order(
    front: Seq<Seq<char>>,
    line: Seq<char>,
    data: Seq<char>,
    behind: Seq<Seq<char>>,
)
    requires
        forall|i: int|
            0 <= i < front.len() ==> carried(#[trigger] front[i]) != Some("[DONE]"@),
    ensures
        carried(line) is None ==> frames_from(front + seq![line] + behind, 0) == frames_from(
            front,
            0,
        ) + frames_from(behind, 0),
        carried(line) == Some("[DONE]"@) ==> frames_from(front + seq![line] + behind, 0)
            == frames_from(front, 0),
        carried(line) == Some(data) && data != "[DONE]"@ ==> frames_from(
            front + seq![line] + behind,
            0,
        ) == frames_from(front, 0).push(data) + frames_from(behind, 0),
{
    let tail = seq![line] + behind;
    assert(front + seq![line] + behind =~= front + tail);
    lemma_frames_parted(front, tail, 0);
    lemma_frames_behind(seq![line], behind, 0);
    assert(tail[0] == line);
    assert(frames_from(tail, 1) == frames_from(behind, 0));
    assert(frames_from(front, 0) + Seq::<Seq<char>>::empty() =~= frames_from(front, 0));
    assert(frames_from(front, 0) + (seq![data] + frames_from(behind, 0)) =~= frames_from(
        front,
        0,
    ).push(data) + frames_from(behind, 0));
}

proof fn lemma_frames_parted(front: Seq<Seq<char>>, behind: Seq<Seq<char>>, i: int)
    requires
        0 <= i <= front.len(),
        forall|j: int|
            0 <= j < front.len() ==> carried(#[trigger] front[j]) != Some("[DONE]"@),
    ensures
        frames_from(front + behind, i) == frames_from(front, i) + frames_from(behind, 0),
    decreases front.len() - i,
{
    let all = front + behind;
    if i < front.len() {
        assert(all[i] == front[i]);
        assert(carried(front[i]) != Some("[DONE]"@));
        lemma_frames_parted(front, behind, i + 1);
        if let Some(data) = carried(front[i]) {
            assert(data != "[DONE]"@);
            assert(seq![data] + (frames_from(front, i + 1) + frames_from(behind, 0)) =~= seq![data]
                + frames_from(front, i + 1) + frames_from(behind, 0));
        }
    } else {
        lemma_frames_behind(front, behind, 0);
        assert(frames_from(front, i) + frames_from(behind, 0) =~= frames_from(behind, 0));
    }
}

/// A line carries what stands behind its mark, without the white space around it; a line without
/// the mark carries nothing.
pub proof fn lines_carry_what_follows_the_mark(data: Seq<char>, line: Seq<char>)
    requires
        data.len() > 0 ==> !is_space(data[0]) && !is_space(data.last()),
        line.len() < 5 || line.take(5) != "data:"@,
    ensures
        data.len() > 0 ==> carried("data:"@ + data) == Some(data),
        data.len() > 0 ==> carried("data: "@ + data) == Some(data),
        data.len() > 0 ==> carried("data: "@ + data + "\r"@) == Some(data),
        carried(line) is None,
{
    reveal_strlit("data:");
    reveal_strlit("data: ");
    reveal_strlit("\r");
    let back = one_of(seq!['\r']);
    if data.len() > 0 {
        lemma_carried(data);
        let bare = "data:"@ + data;
        assert(seq!['\r'].contains('\r')) by {
            assert(seq!['\r'][0] == '\r');
        }
        assert(bare.last() == data.last());
        assert(!back(data.last()));
        assert(drop_trailing(bare, back) == bare);
        assert(bare.subrange(0, 5) =~= "data:"@);
        assert(bare.skip(5) =~= data);
        assert(drop_leading(data, spaces()) == data);
        assert(trim(data) == data);
        let plain = "data: "@ + data;
        let ended = plain + "\r"@;
        assert(ended.last() == '\r');
        assert(back(ended.last()));
        assert(ended.drop_last() =~= plain);
        assert(plain.last() == data.last());
        assert(drop_trailing(plain, back) == plain);
        assert(drop_trailing(ended, back) == plain);
    }
    let text = drop_trailing(line, back);
    lemma_dropped_front(line);
    if starts_with(text, "data:"@) {
        assert(text.subrange(0, 5) =~= line.take(5));
    }
}

proof fn lemma_dropped_front(s: Seq<char>)
    ensures
        ({
            let text = drop_trailing(s, one_of(seq!['\r']));
            text.len() <= s.len() && text == s.take(text.len() as int)
        }),
    decreases s.len(),
{
    let p = one_of(seq!['\r']);
    if s.len() > 0 && p(s.last()) {
        lemma_dropped_front(s.drop_last());
        let text = drop_trailing(s.drop_last(), p);
        assert(s.drop_last().take(text.len() as int) =~= s.take(text.len() as int));
    } else {
        assert(s.take(s.len() as int) =~= s);
    }
}

/// One line that carries something makes a text an event stream, wherever it stands, and a text
/// without one is none.
pub proof fn one_line_makes_a_stream(text: Seq<char>, i: int)
    ensures
        0 <= i < pieces(text, only('\n')).len() && carried(pieces(text, only('\n'))[i]) is Some
            ==> stream_frames(text) is Some,
        (forall|j: int|
            0 <= j < pieces(text, only('\n')).len() ==> carried(
                #[trigger] pieces(text, only('\n'))[j],
            ) is None) ==> stream_frames(text) is None,
{
}

fn carried_chars(line: &[char]) -> (r: Option<Vec<char>>)
    ensures
        match r {
            Some(data) => carried(line@) == Some(data@),
            None => carried(line@) is None,
        },
{
    let back: [char; 1] = ['\r'];
    assert(back@ =~= seq!['\r']);
    let text = trim_end_of(line, back.as_slice());
    let prefix = chars_of("data:");
    proof {
        reveal_strlit("data:");
    }
    if !begins(text, prefix.as_slice()) {
        return None;
    }
    let rest = slice_subrange(text, 5, text.len());
    assert(rest@ =~= text@.skip(5));
    Some(crate::text::copied(trim_slice(rest)))
}

/// The frames of a reply, where it is an event stream.
pub fn frames(text: &str) -> (r: Option<Vec<String>>)
    ensures
        match r {
            Some(list) => stream_frames(text@) == Some(strings(list@)),
            None => stream_frames(text@) is None,
        },
{
    let chars = chars_of(text);
    let lines = split_char(chars.as_slice(), '\n');
    let ghost all = lists(lines@);
    let done = chars_of("[DONE]");
    let mut out: Vec<String> = Vec::new();
    let mut seen: bool = false;
    let mut i: usize = 0;
    assert(strings(out@) + frames_from(all, 0) =~= frames_from(all, 0));
    while i < lines.len()
        invariant
            i <= lines.len(),
            all == lists(lines@),
            all == pieces(text@, only('\n')),
            done@ == "[DONE]"@,
            seen == (exists|j: int| 0 <= j < i && carried(#[trigger] all[j]) is Some),
            strings(out@) + frames_from(all, i as int) == frames_from(all, 0),
        decreases lines.len() - i,
    {
        assert(all[i as int] == lines@[i as int]@);
        let ghost before = strings(out@);
        if let Some(data) = carried_chars(lines[i].as_slice()) {
            assert(carried(all[i as int]) is Some);
            seen = true;
            if same_chars(data.as_slice(), done.as_slice()) {
                assert(strings(out@) + frames_from(all, i as int) =~= strings(out@));
                return Some(out);
            }
            let frame = string_of(data.as_slice());
            out.push(frame);
            assert(strings(out@) =~= before.push(frame@));
            assert(strings(out@) + frames_from(all, i + 1) =~= before + frames_from(
                all,
                i as int,
            ));
        }
        i += 1;
    }
    assert(strings(out@) + frames_from(all, i as int) =~= strings(out@));
    if seen {
        Some(out)
    } else {
        None
    }
}

/// The pieces of text that the first `end` frames bring.
pub open spec fn frame_tokens(list: Seq<Seq<char>>, end: int) -> Seq<Seq<char>>
    decreases end,
{
    if end <= 0 {
        Seq::empty()
    } else {
        let front = frame_tokens(list, end - 1);
        match json_entry_text(list[end - 1], "choices"@, 0, "delta"@, "content"@) {
            Some(token) => front.push(token),
            None => front,
        }
    }
}

/// The frames bring their pieces of text in their order, and a frame without one brings nothing.
pub proof fn tokens_come_in_order(a: Seq<Seq<char>>, b: Seq<Seq<char>>, frame: Seq<char>)
    ensures
        ({
            let all = a + b;
            &&& frame_tokens(all, all.len() as int) == frame_tokens(a, a.len() as int)
                + frame_tokens(b, b.len() as int)
            &&& frame_tokens(seq![frame], 1) == (match json_entry_text(
                frame,
                "choices"@,
                0,
                "delta"@,
                "content"@,
            ) {
                Some(token) => seq![token],
                None => Seq::<Seq<char>>::empty(),
            })
        }),
{
    let all = a + b;
    lemma_tokens_parted(a, b, b.len() as int);
    let one = seq![frame];
    assert(frame_tokens(one, 0) =~= Seq::<Seq<char>>::empty());
    if let Some(token) = json_entry_text(frame, "choices"@, 0, "delta"@, "content"@) {
        assert(frame_tokens(one, 1) =~= seq![token]);
    }
}

proof fn lemma_tokens_parted(a: Seq<Seq<char>>, b: Seq<Seq<char>>, n: int)
    requires
        0 <= n <= b.len(),
    ensures
        frame_tokens(a + b, a.len() + n) == frame_tokens(a, a.len() as int) + frame_tokens(b, n),
    decreases n,
{
    if n > 0 {
        lemma_tokens_parted(a, b, n - 1);
        assert((a + b)[a.len() + n - 1] == b[n - 1]);
        let front = frame_tokens(a, a.len() as int);
        if let Some(token) = json_entry_text(b[n - 1], "choices"@, 0, "delta"@, "content"@) {
            assert((front + frame_tokens(b, n - 1)).push(token) =~= front + frame_tokens(
                b,
                n - 1,
            ).push(token));
        }
    } else {
        lemma_tokens_same(a, b, a.len() as int);
        assert(frame_tokens(a, a.len() as int) + frame_tokens(b, 0) =~= frame_tokens(
            a,
            a.len() as int,
        ));
    }
}

proof fn lemma_tokens_same(a: Seq<Seq<char>>, b: Seq<Seq<char>>, n: int)
    requires
        0 <= n <= a.len(),
    ensures
        frame_tokens(a + b, n) == frame_tokens(a, n),
    decreases n,
{
    if n > 0 {
        lemma_tokens_same(a, b, n - 1);
        assert((a + b)[n - 1] == a[n - 1]);
    }
}

/// The pieces of text that a reply brings: those of its frames, or, where it is no event stream,
/// the content of its one body.
pub open spec fn reply_tokens(text: Seq<char>) -> Seq<Seq<char>> {
    match stream_frames(text) {
        Some(list) => frame_tokens(list, list.len() as int),
        None => match reply_content(text) {
            Some(content) => seq![content],
            None => Seq::empty(),
        },
    }
}

/// The events of a reply: its pieces of text, and then the answer with its citations.
pub open spec fn reply_events(
    tokens: Seq<Seq<char>>,
    answer: Seq<char>,
    sources: Seq<SourceData>,
) -> Seq<EventData> {
    Seq::new(tokens.len(), |i: int| EventData::Token(tokens[i])).push(
        EventData::Done(answer, sources),
    )
}

/// The answer of a model's text: what is salvaged from it, or the text where there is nothing to
/// salvage.
pub open spec fn final_answer(text: Seq<char>) -> Seq<char> {
    match salvaged(text) {
        Some(answer) => answer,
        None => text,
    }
}

/// What is salvaged from a text is its answer, and a text from which nothing can be salvaged is
/// shown as it is.
pub proof fn no_answer_is_lost(text: Seq<char>)
    ensures
        salvaged(text) is None ==> final_answer(text) == text,
        salvaged(text) matches Some(answer) ==> final_answer(text) == answer,
{
}

/// A frame that brings one piece of text.
pub open spec fn frame_body(token: Seq<char>) -> Seq<char> {
    json_reply("choices"@, "delta"@, "content"@, token)
}

/// The frames that bring these pieces of text.
pub open spec fn frame_bodies(tokens: Seq<Seq<char>>) -> Seq<Seq<char>> {
    Seq::new(tokens.len(), |i: int| frame_body(tokens[i]))
}

/// The event stream of an engine that says these pieces of text.
pub open spec fn stream_text(tokens: Seq<Seq<char>>) -> Seq<char>
    decreases tokens.len(),
{
    if tokens.len() == 0 {
        "data: [DONE]"@ + seq!['\n', '\n']
    } else {
        "data: "@ + frame_body(tokens[0]) + seq!['\n', '\n'] + stream_text(tokens.skip(1))
    }
}

proof fn lemma_frames_behind(front: Seq<Seq<char>>, lines: Seq<Seq<char>>, i: int)
    requires
        0 <= i,
    ensures
        frames_from(front + lines, front.len() + i) == frames_from(lines, i),
    decreases lines.len() - i,
{
    if i < lines.len() {
        assert((front + lines)[front.len() + i] == lines[i]);
        lemma_frames_behind(front, lines, i + 1);
    }
}

/// A line of a stream and the blank line behind it.
proof fn lemma_stream_line(line: Seq<char>, rest: Seq<char>)
    requires
        forall|i: int| 0 <= i < line.len() ==> (#[trigger] line[i]) != '\n',
    ensures
        pieces(line + seq!['\n', '\n'] + rest, only('\n')) == seq![line, Seq::<char>::empty()]
            + pieces(rest, only('\n')),
{
    let sep = only('\n');
    let none = Seq::<char>::empty();
    assert forall|i: int| 0 <= i < line.len() implies !sep(#[trigger] line[i]) by {
        assert(line[i] != '\n');
    }
    lemma_one_piece(line, sep);
    lemma_one_piece(none, sep);
    lemma_pieces_parted(none, '\n', rest, sep);
    lemma_pieces_parted(line, '\n', none.push('\n') + rest, sep);
    assert(line + seq!['\n', '\n'] + rest =~= line.push('\n') + (none.push('\n') + rest));
    assert(pieces(line + seq!['\n', '\n'] + rest, sep) =~= seq![line, none] + pieces(rest, sep));
}

/// What a line of a stream carries is what stands behind its mark.
proof fn lemma_carried(data: Seq<char>)
    requires
        data.len() > 0,
        !is_space(data[0]),
        !is_space(data.last()),
    ensures
        carried("data: "@ + data) == Some(data),
{
    reveal_strlit("data: ");
    reveal_strlit("data:");
    let line = "data: "@ + data;
    assert(line.last() == data.last());
    assert(drop_trailing(line, one_of(seq!['\r'])) == line);
    assert(line.subrange(0, 5) =~= "data:"@);
    let rest = line.skip(5);
    assert(rest[0] == ' ');
    assert(rest.skip(1) =~= data);
    assert(drop_leading(data, spaces()) == data);
    assert(drop_leading(rest, spaces()) == data);
    assert(trim(rest) == data);
}

/// The frames of an engine's stream are those that it wrote.
pub proof fn streams_are_read_back(tokens: Seq<Seq<char>>)
    ensures
        stream_frames(stream_text(tokens)) == Some(frame_bodies(tokens)),
    decreases tokens.len(),
{
    let text = stream_text(tokens);
    let lines = pieces(text, only('\n'));
    let none = Seq::<char>::empty();
    if tokens.len() == 0 {
        reveal_strlit("data: [DONE]");
        reveal_strlit("[DONE]");
        reveal_strlit("data: ");
        let line = "data: [DONE]"@;
        assert(line =~= "data: "@ + "[DONE]"@);
        lemma_carried("[DONE]"@);
        lemma_stream_line(line, none);
        assert(line + seq!['\n', '\n'] + none =~= text);
        assert(lines[0] == line);
        assert(frames_from(lines, 0) =~= frame_bodies(tokens));
    } else {
        let body = frame_body(tokens[0]);
        let line = "data: "@ + body;
        let rest = stream_text(tokens.skip(1));
        reveal_strlit("data: ");
        reveal_strlit("[DONE]");
        lemma_json_reply_line("choices"@, "delta"@, "content"@, tokens[0]);
        assert forall|i: int| 0 <= i < line.len() implies (#[trigger] line[i]) != '\n' by {
            if i >= 6 {
                assert(line[i] == body[i - 6]);
            }
        }
        lemma_carried(body);
        lemma_stream_line(line, rest);
        streams_are_read_back(tokens.skip(1));
        let front = seq![line, none];
        let others = pieces(rest, only('\n'));
        assert(lines == front + others);
        assert(lines[0] == line && lines[1] == none);
        lemma_frames_behind(front, others, 0);
        reveal_strlit("data:");
        assert(carried(none) is None);
        assert(frames_from(lines, 1) == frames_from(lines, 2));
        assert(body[0] == '{');
        assert(body != "[DONE]"@);
        assert(frames_from(lines, 0) == seq![body] + frames_from(lines, 1));
        assert(frame_bodies(tokens) =~= seq![body] + frame_bodies(tokens.skip(1)));
    }
}

/// The one body of an engine's reply is no event stream.
proof fn lemma_no_stream(content: Seq<char>)
    ensures
        stream_frames(reply_body(content)) is None,
{
    let text = reply_body(content);
    lemma_json_reply_line("choices"@, "message"@, "content"@, content);
    let sep = only('\n');
    assert forall|i: int| 0 <= i < text.len() implies !sep(#[trigger] text[i]) by {
        assert(text[i] != '\n');
    }
    lemma_one_piece(text, sep);
    reveal_strlit("data:");
    let plain = drop_trailing(text, one_of(seq!['\r']));
    assert(plain == text);
    assert(carried(text) is None) by {
        if starts_with(text, "data:"@) {
            assert(text.subrange(0, 5)[0] == text[0]);
        }
    }
}

fn tokens_of(list: &[String]) -> (r: Vec<String>)
    ensures
        strings(r@) == frame_tokens(strings(list@), list@.len() as int),
        forall|tokens: Seq<Seq<char>>|
            strings(list@) == #[trigger] frame_bodies(tokens) ==> strings(r@) == tokens,
{
    let ghost all = strings(list@);
    let mut out: Vec<String> = Vec::new();
    let mut i: usize = 0;
    assert(strings(out@) =~= frame_tokens(all, 0));
    while i < list.len()
        invariant
            i <= list.len(),
            all == strings(list@),
            all.len() == list@.len(),
            strings(out@) == frame_tokens(all, i as int),
            forall|tokens: Seq<Seq<char>>|
                all == #[trigger] frame_bodies(tokens) ==> strings(out@) == tokens.take(i as int),
        decreases list.len() - i,
    {
        assert(all[i as int] == list@[i as int]@);
        let ghost before = strings(out@);
        let found = json_entry(list[i].as_str(), "choices", 0, "delta", "content");
        let ghost said = optional(found);
        if let Some(token) = found {
            out.push(token);
            assert(strings(out@) =~= before.push(token@));
        }
        assert forall|tokens: Seq<Seq<char>>| all == #[trigger] frame_bodies(tokens) implies strings(
            out@,
        ) == tokens.take(i + 1) by {
            assert(frame_bodies(tokens).len() == tokens.len());
            assert(all[i as int] == frame_body(tokens[i as int]));
            assert(said == Some(tokens[i as int]));
            assert(strings(out@) =~= tokens.take(i + 1));
        }
        i += 1;
    }
    assert forall|tokens: Seq<Seq<char>>| all == #[trigger] frame_bodies(tokens) implies strings(
        out@,
    ) == tokens by {
        assert(frame_bodies(tokens).len() == tokens.len());
        assert(tokens.take(list@.len() as int) =~= tokens);
    }
    out
}

/// The events of a reply, given its pieces of text and its answer.
pub fn events_of(tokens: &[String], answer: String, results: &[SearchResult]) -> (r: Vec<ChatEvent>)
    ensures
        event_data(r@) == reply_events(strings(tokens@), answer@, cited(result_data(results@))),
        r@.len() == tokens@.len() + 1,
        forall|i: int|
            0 <= i < tokens@.len() ==> ((#[trigger] r@[i]) matches ChatEvent::Token { token: t }
                && t@ == tokens@[i]@),
        r@.last() matches ChatEvent::Done { answer: a, sources: s } && a@ == answer@ && s@.len()
            == results@.len() && forall|i: int|
            0 <= i < results@.len() ==> {
                &&& (#[trigger] s@[i]).id@ == results@[i].id@
                &&& s@[i].filename@ == results@[i].filename@
                &&& s@[i].page == results@[i].page
                &&& s@[i].kind@ == results@[i].score_kind@
                &&& s@[i].score == results@[i].score
                &&& s@[i].figure == results@[i].figure
            },
{
    let ghost all = Seq::new(tokens@.len(), |i: int| EventData::Token(strings(tokens@)[i]));
    let mut out: Vec<ChatEvent> = Vec::new();
    let mut i: usize = 0;
    while i < tokens.len()
        invariant
            i <= tokens.len(),
            all == Seq::new(tokens@.len(), |i: int| EventData::Token(strings(tokens@)[i])),
            event_data(out@) == all.take(i as int),
            out@.len() == i,
            forall|k: int|
                0 <= k < i ==> ((#[trigger] out@[k]) matches ChatEvent::Token { token: t } && t@
                    == tokens@[k]@),
        decreases tokens.len() - i,
    {
        let ghost before = event_data(out@);
        let event = ChatEvent::Token { token: tokens[i].clone() };
        out.push(event);
        assert(event_data(out@) =~= before.push(event@));
        assert(event_data(out@) =~= all.take(i + 1));
        i += 1;
    }
    assert(event_data(out@) =~= all);
    let event = ChatEvent::Done { answer, sources: sources_of(results) };
    let ghost before = event_data(out@);
    out.push(event);
    assert(event_data(out@) =~= before.push(event@));
    assert(event_data(out@) =~= reply_events(
        strings(tokens@),
        answer@,
        cited(result_data(results@)),
    ));
    out
}

/// Reads a reply into events. A server that ignored the wish for a stream sends one body; the
/// answer is salvaged from either in the same way.
pub fn parse_response(text: &str, results: &[SearchResult]) -> (r: Vec<ChatEvent>)
    ensures
        ({
            let tokens = reply_tokens(text@);
            event_data(r@) == reply_events(
                tokens,
                final_answer(joined(tokens, Seq::empty())),
                cited(result_data(results@)),
            )
        }),
        forall|tokens: Seq<Seq<char>>, answer: Seq<char>|
            text@ == #[trigger] stream_text(tokens) && joined(tokens, Seq::empty())
                == #[trigger] json_object("answer"@, answer) ==> event_data(r@) == reply_events(
                tokens,
                answer,
                cited(result_data(results@)),
            ),
        forall|answer: Seq<char>|
            text@ == reply_body(#[trigger] json_object("answer"@, answer)) ==> event_data(r@)
                == reply_events(
                seq![json_object("answer"@, answer)],
                answer,
                cited(result_data(results@)),
            ),
{
    proof {
        assert forall|tokens: Seq<Seq<char>>| text@ == #[trigger] stream_text(
            tokens,
        ) implies stream_frames(text@) == Some(frame_bodies(tokens)) by {
            streams_are_read_back(tokens);
        }
        assert forall|content: Seq<char>| text@ == #[trigger] reply_body(
            content,
        ) implies stream_frames(text@) is None by {
            lemma_no_stream(content);
        }
    }
    let tokens: Vec<String> = match frames(text) {
        Some(list) => tokens_of(list.as_slice()),
        None => {
            let mut one: Vec<String> = Vec::new();
            assert(strings(one@) =~= Seq::<Seq<char>>::empty());
            if let Some(content) = json_entry(text, "choices", 0, "message", "content") {
                one.push(content);
                assert(strings(one@) =~= seq![content@]);
            }
            one
        },
    };
    let whole = join_strings(tokens.as_slice(), "");
    proof {
        reveal_strlit("");
        assert(""@ =~= Seq::<char>::empty());
    }
    let answer = match extract_answer(whole.as_str()) {
        Some(found) => found,
        None => whole,
    };
    events_of(tokens.as_slice(), answer, results)
}

/// Reads the engine's reply: its events, or the error that its status stands for.
pub fn read_reply(status: u16, status_text: &str, text: &str, results: &[SearchResult]) -> (r:
    Result<Vec<ChatEvent>, ReplyError>)
    ensures
        match r {
            Ok(events) => {
                let tokens = reply_tokens(text@);
                status == 200 && event_data(events@) == reply_events(
                    tokens,
                    final_answer(joined(tokens, Seq::empty())),
                    cited(result_data(results@)),
                )
            },
            Err(ReplyError::Status { status: s, excerpt: e }) => status != 200 && s@ == status_text@
                && e@ == excerpt_of(text@),
            Err(_) => false,
        },
{
    match accept_reply(status, status_text, text) {
        Ok(()) => Ok(parse_response(text, results)),
        Err(error) => Err(error),
    }
}

/// A reply always ends in an answer, and only there: its last event is the answer with one source
/// for each passage, and every other event is a piece of text.
pub proof fn replies_end_in_an_answer(
    tokens: Seq<Seq<char>>,
    answer: Seq<char>,
    results: Seq<ResultData>,
)
    ensures
        ({
            let events = reply_events(tokens, answer, cited(results));
            &&& events.len() == tokens.len() + 1
            &&& events.last() == EventData::Done(answer, cited(results))
            &&& cited(results).len() == results.len()
            &&& forall|i: int|
                0 <= i < events.len() - 1 ==> (#[trigger] events[i]) == EventData::Token(tokens[i])
        }),
{
}

} // verus!

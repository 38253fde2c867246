use corpus::chat::{
    answer, chat_prompt, events_of, extract_answer, find_answer_value_start, frames,
    parse_response, pick_answer, quoted_answer, read_reply, sources_of, thread, ChatEvent,
    ChatSession, ChatTurn, HISTORY_TURNS, SYSTEM_PROMPT,
};
use corpus::score::Score;
use corpus::search::SearchResult;
use corpus::vision::VisionConfig;

fn result(filename: &str, page: i32, text: &str) -> SearchResult {
    SearchResult {
        id: format!("{filename}:{page}:0"),
        score: Score { bits: 0.9f32.to_bits() },
        score_kind: "rerank",
        filename: filename.to_string(),
        page,
        text: text.to_string(),
        figure: false,
    }
}

fn turn(role: &str, content: &str) -> ChatTurn {
    ChatTurn {
        role: role.to_string(),
        content: content.to_string(),
    }
}

#[test]
fn the_prompt_carries_the_thread_and_the_passages() {
    let turns = vec![
        ChatTurn {
            role: "user".to_string(),
            content: "first question".to_string(),
        },
        ChatTurn {
            role: "assistant".to_string(),
            content: "first answer".to_string(),
        },
    ];
    let results = vec![result("a.pdf", 2, "because 4.5%")];
    let prompt = chat_prompt(&turns, &results);
    assert!(prompt.contains("User: first question"));
    assert!(prompt.contains("Assistant: first answer"));
    assert!(prompt.contains("[1] [a.pdf p.2 | rerank 0.90]"), "passages carry the number the answer cites");
    assert!(prompt.contains("because 4.5%"));
}

#[test]
fn a_first_question_becomes_a_title() {
    assert_eq!(ChatSession::title_from("What is the gradient?"), "What is the gradient?");
    let long = ChatSession::title_from(&"word ".repeat(40));
    assert!(long.chars().count() <= 49);
    assert!(long.ends_with('…'));
    assert!(!long.ends_with(" …"));
    assert_eq!(ChatSession::title_from("  padded  "), "padded");
}

#[test]
fn answer_salvage_survives_every_wrapper() {
    // Clean JSON.
    assert_eq!(extract_answer("{\"answer\":\"x\"}").as_deref(), Some("x"));
    // Fenced.
    assert_eq!(extract_answer("```json\n{\"answer\":\"x\"}\n```").as_deref(), Some("x"));
    // Prose before the JSON.
    assert_eq!(extract_answer("Here you go: {\"answer\":\"x\"}").as_deref(), Some("x"));
    // Broken after the answer string: salvage by hand.
    assert_eq!(extract_answer("{\"answer\":\"x\\\"ok\"}garbage").as_deref(), Some("x\"ok"));
    // Prose entirely: the text is the answer.
    assert_eq!(extract_answer("just text").as_deref(), Some("just text"));
    // Escapes decode.
    assert_eq!(extract_answer("{\"answer\":\"a\\nb\\u2014c\"}").as_deref(), Some("a\nb—c"));
}

#[test]
fn the_answer_key_is_found_only_when_quoted() {
    assert_eq!(find_answer_value_start("{\"answer\":\"hi\"}"), Some(11));
    assert_eq!(find_answer_value_start("{\"answer\" : \"hi\"}"), Some(13));
    assert_eq!(find_answer_value_start("Here you go: {\"answer\":\"x\"}"), Some(24));
    // A prose echo of the schema must not count as the object's key.
    assert_eq!(find_answer_value_start("say \"answer\": text"), None);
}

#[test]
fn positions_are_counted_in_bytes() {
    assert_eq!(find_answer_value_start("é {\"answer\":\"x\"}"), Some(14));
    assert_eq!(find_answer_value_start("{\"a\": 1, \"answer\" :\t\"x\"}"), Some(21));
    assert_eq!(find_answer_value_start("{\"answer\": 1}"), None);
}

fn done_of(events: &[ChatEvent]) -> (&str, &[corpus::chat::Source]) {
    events
        .iter()
        .find_map(|event| match event {
            ChatEvent::Done { answer, sources } => Some((answer.as_str(), sources.as_slice())),
            _ => None,
        })
        .unwrap()
}

#[test]
fn parse_response_collects_sse_tokens_and_salvages_the_answer() {
    let sse = "data: {\"choices\":[{\"delta\":{\"content\":\"{\\\"answer\\\":\\\"hel\"}}]}\n\n\
               data: {\"choices\":[{\"delta\":{\"content\":\"lo\\\"}\"}}]}\n\n\
               data: [DONE]\n\n";
    let events = parse_response(sse, &[result("a.pdf", 2, "text")]);
    let tokens: Vec<&str> = events
        .iter()
        .filter_map(|event| match event {
            ChatEvent::Token { token } => Some(token.as_str()),
            _ => None,
        })
        .collect();
    assert_eq!(tokens, vec!["{\"answer\":\"hel", "lo\"}"]);
    let (answer, sources) = done_of(&events);
    assert_eq!(answer, "hello");
    assert_eq!(sources[0].filename, "a.pdf");
    assert_eq!(sources[0].id, "a.pdf:2:0", "a citation names its exact chunk");
}

#[test]
fn parse_response_handles_a_plain_json_body() {
    let body = "{\"choices\":[{\"message\":{\"content\":\"{\\\"answer\\\":\\\"x\\\"}\"}}]}";
    let events = parse_response(body, &[]);
    assert_eq!(done_of(&events).0, "x");
}

#[test]
fn regenerate_drops_the_last_answer_but_keeps_its_question() {
    let history = vec![turn("user", "q1"), turn("assistant", "a1")];
    let again = thread(&history, "q1", true);
    assert_eq!(again.len(), 1);
    assert_eq!(again[0].content, "q1");
    assert_eq!(again[0].role, "user");

    let next = thread(&history, "q2", false);
    assert_eq!(next.len(), 3, "a new question carries the whole exchange");
    assert_eq!(next.last().unwrap().content, "q2");
}

#[test]
fn only_the_most_recent_turns_travel() {
    let history: Vec<ChatTurn> = (0..20)
        .map(|i| turn(if i % 2 == 0 { "user" } else { "assistant" }, &format!("t{i}")))
        .collect();
    let recent = thread(&history, "now", false);
    assert_eq!(recent.len(), HISTORY_TURNS);
    assert_eq!(recent.last().unwrap().content, "now");
    assert_eq!(recent.first().unwrap().content, "t9", "the oldest turns fall off");
}

#[test]
fn chat_refuses_a_cloud_endpoint_before_anything_is_sent() {
    let config = VisionConfig {
        base_url: "https://api.openai.com/v1".to_string(),
        api_key: "sk-secret".to_string(),
        model: "some-cloud-model".to_string(),
        timeout_secs: 5,
    };
    let error = match answer(&config, "what is the gradient?", &[], &[], false) {
        Ok(_) => panic!("a cloud endpoint must be refused"),
        Err(error) => error,
    };
    assert!(
        error.message().contains("non-local"),
        "the guard must be the reason: {}",
        error.message()
    );
}

#[test]
fn a_truncated_unicode_escape_is_survived_not_a_panic() {
    // The four hex digits a \u escape needs run into the middle of the "é":
    // slicing the slice would abort the process, and salvage exists precisely
    // because model output arrives broken.
    let salvaged = extract_answer("{\"answer\":\"\\u000é tail").unwrap();
    assert!(salvaged.contains('é'), "{salvaged}");
}

#[test]
fn a_session_keeps_its_transcript_and_citations() {
    let mut session = ChatSession::new("c1".into(), "vision-model");
    assert_eq!(session.title, "New chat");
    assert_eq!(session.passages, 6);
    assert_eq!(session.state, "active");
    session.push_question("first question");
    session.push_answer("an [1] answer", serde_json::Value::Array(Vec::new()));
    assert_eq!(session.title, "first question");
    assert_eq!(session.turns.len(), 2);
    assert_eq!(session.sources.len(), 1);
    assert_eq!(session.last_question(), Some("first question"));

    let sessions = vec![session];
    let metas = ChatSession::list(&sessions);
    assert_eq!(metas.len(), 1);
    assert_eq!(metas[0].turns, 2);

    // Answering again drops the answer only.
    let mut session = sessions.into_iter().next().unwrap();
    session.pop_assistant_turn();
    assert_eq!(session.turns.len(), 1);
    assert_eq!(session.sources.len(), 0);
    session.pop_assistant_turn();
    assert_eq!(session.turns.len(), 1, "a question is not dropped");
    session.push_question("second question");
    assert_eq!(session.title, "first question");
    assert_eq!(ChatSession::file_name("c1"), "c1.json");
}

#[test]
fn new_sessions_are_stamped_with_the_time() {
    let session = ChatSession::new("c1".into(), "m");
    assert_eq!(session.created_at.len(), 20);
    assert!(session.created_at.ends_with('Z'));
    assert_eq!(&session.created_at[10..11], "T");
    assert_eq!(session.updated_at, session.created_at);
}

#[test]
fn the_newest_chats_come_first_and_hidden_ones_stay_out() {
    let at = |id: &str, time: &str| {
        let mut session = ChatSession::begin(id.to_string(), "m", time.to_string());
        session.updated_at = time.to_string();
        session
    };
    let mut hidden = at("hidden", "2026-01-09T00:00:00Z");
    hidden.state = "deleted".to_string();
    let sessions = vec![
        at("old", "2026-01-01T00:00:00Z"),
        hidden,
        at("new", "2026-01-03T00:00:00Z"),
        at("middle", "2026-01-02T00:00:00Z"),
    ];
    let ids: Vec<String> = ChatSession::list(&sessions).into_iter().map(|meta| meta.id).collect();
    assert_eq!(ids, vec!["new", "middle", "old"]);
}

#[test]
fn the_request_carries_the_whole_thread() {
    let config = VisionConfig {
        base_url: "http://localhost:1/v1".to_string(),
        api_key: String::new(),
        model: "m".to_string(),
        timeout_secs: 5,
    };
    let history = vec![turn("user", "q1"), turn("assistant", "a \"quoted\" answer")];
    let results = vec![result("a.pdf", 2, "because")];
    let request = answer(&config, "q2", &history, &results, false).unwrap();
    assert_eq!(request.url, "http://localhost:1/v1/chat/completions");
    let body: serde_json::Value = serde_json::from_str(&request.body).unwrap();
    assert_eq!(body["model"], "m");
    assert_eq!(body["stream"], true);
    assert_eq!(body["messages"][0]["role"], "system");
    assert_eq!(body["messages"][0]["content"], SYSTEM_PROMPT);
    assert_eq!(body["messages"][1]["role"], "user");
    let turns = thread(&history, "q2", false);
    assert_eq!(body["messages"][1]["content"], chat_prompt(&turns, &results));
}

#[test]
fn replies_are_frames_or_one_body() {
    assert!(frames("{\"choices\":[]}").is_none());
    let list = frames("data: one\n\n: note\ndata: two\ndata: [DONE]\ndata: three\n").unwrap();
    assert_eq!(list, vec!["one", "two"]);
    let refused = read_reply(503, "503 Service Unavailable", "busy", &[]).unwrap_err();
    assert_eq!(refused.message(), "model returned 503 Service Unavailable: busy");
    let events = read_reply(200, "200 OK", "data: not json\n", &[]).unwrap();
    assert_eq!(events.len(), 1);
}

#[test]
fn the_last_event_is_the_answer_with_a_source_for_each_passage() {
    let results = vec![result("a.pdf", 2, "x"), result("b.md", -1, "y")];
    let sources = sources_of(&results);
    assert_eq!(sources.len(), 2);
    assert_eq!(sources[1].filename, "b.md");
    assert_eq!(sources[1].page, -1);
    assert_eq!(sources[0].kind, "rerank");
    let tokens = vec!["he".to_string(), "llo".to_string()];
    let events = events_of(&tokens, "hello".to_string(), &results);
    assert_eq!(events.len(), 3);
    assert!(matches!(&events[2], ChatEvent::Done { answer, sources } if answer == "hello" && sources.len() == 2));
}

#[test]
fn json_strings_are_read_back() {
    for text in ["plain", "a \"quote\" and \\ backslash", "line\nbreak\ttab", "\u{1}é漢😀"] {
        let quoted = serde_json::to_string(text).unwrap();
        let whole = format!("{{\"answer\":{quoted}}}");
        assert_eq!(quoted_answer(&whole).as_deref(), Some(text), "{quoted}");
        assert_eq!(extract_answer(&whole).as_deref(), Some(text));
    }
}

#[test]
fn the_best_reading_of_a_reply_is_picked() {
    let some = |text: &str| Some(text.to_string());
    assert_eq!(pick_answer("raw", some("a"), some("b"), some("c")).as_deref(), Some("a"));
    assert_eq!(pick_answer("raw", None, some("b"), some("c")).as_deref(), Some("b"));
    assert_eq!(pick_answer("raw", None, None, some("c")).as_deref(), Some("c"));
    assert_eq!(pick_answer("{\"answer\":\"q", None, some("b"), None).as_deref(), Some("q"));
    assert_eq!(pick_answer("raw", None, None, None).as_deref(), Some("raw"));
    assert_eq!(pick_answer("", None, None, None), None);
    assert_eq!(extract_answer("   "), None);
}

use corpus::endpoint::NonLocalEndpoint;
use corpus::vision::{
    accept_reply, base64_encode, caption_from, caption_image, caption_prompt, chat,
    ensure_local_endpoint, is_local_host, probe_endpoint, probe_image, read_caption, Environment,
    ReplyError, VisionConfig, VisionSettings,
};

fn config(base_url: &str, api_key: &str) -> VisionConfig {
    VisionConfig {
        base_url: base_url.to_string(),
        api_key: api_key.to_string(),
        model: "m".to_string(),
        timeout_secs: 5,
    }
}

fn environment(values: [Option<&str>; 4]) -> Environment {
    let [url, key, model, timeout] = values.map(|value| value.map(str::to_string));
    Environment { url, key, model, timeout }
}

#[test]
fn loopback_and_private_hosts_are_allowed() {
    assert!(is_local_host("127.0.0.1"));
    assert!(is_local_host("localhost"));
    assert!(is_local_host("192.168.1.20"));
    assert!(is_local_host("10.0.0.5"));
    assert!(is_local_host("::1"));
}

#[test]
fn public_hosts_are_refused() {
    assert!(!is_local_host("api.openai.com"));
    assert!(!is_local_host("8.8.8.8"));
    assert!(!is_local_host("172.32.0.1"));
}

#[test]
fn the_chat_guard_refuses_public_endpoints() {
    ensure_local_endpoint("http://127.0.0.1:11234/v1/chat/completions").unwrap();
    ensure_local_endpoint("http://192.168.1.20:8080/v1").unwrap();
    ensure_local_endpoint("http://localhost:8000/v1").unwrap();
    assert!(ensure_local_endpoint("https://api.openai.com/v1").is_err());
    assert!(ensure_local_endpoint("https://8.8.8.8/v1").is_err());
}

#[test]
fn base64_matches_known_vectors() {
    assert_eq!(base64_encode(b""), "");
    assert_eq!(base64_encode(b"a"), "YQ==");
    assert_eq!(base64_encode(b"ab"), "YWI=");
    assert_eq!(base64_encode(b"abc"), "YWJj");
    assert_eq!(base64_encode(b"hello"), "aGVsbG8=");
}

#[test]
fn vision_settings_default_to_disabled() {
    let loaded = VisionSettings::defaults(VisionConfig::from_env(&environment([None; 4])));
    assert!(!loaded.enabled, "captioning must be opted into, not assumed");
}

#[test]
fn the_probe_image_is_a_png_a_model_can_actually_read() {
    let png = probe_image().unwrap();
    assert_eq!(&png[..8], b"\x89PNG\r\n\x1a\n");
    // A blank 96x64 encodes to well under this; if it grew to megabytes the
    // probe would be slower than a real caption.
    assert!(png.len() < 100_000, "probe image was {} bytes", png.len());
}

#[test]
fn the_environment_fills_in_what_is_set() {
    let bare = VisionConfig::from_env(&environment([None; 4]));
    assert_eq!(bare.base_url, "http://127.0.0.1:11234/v1");
    assert_eq!(bare.api_key, "");
    assert_eq!(bare.model, "ddalcu/Qwen3.8-Flash-Next-MLX-Serve-mixed-4-8bit");
    assert_eq!(bare.timeout_secs, 600);
    let set = VisionConfig::from_env(&environment([
        Some("http://localhost:1/v1"),
        Some("k"),
        Some("m"),
        Some("30"),
    ]));
    assert_eq!((set.base_url.as_str(), set.api_key.as_str()), ("http://localhost:1/v1", "k"));
    assert_eq!((set.model.as_str(), set.timeout_secs), ("m", 30));
    let odd = VisionConfig::from_env(&environment([None, None, None, Some("soon")]));
    assert_eq!(odd.timeout_secs, 600);
}

#[test]
fn the_environment_overrides_the_settings_of_one_run() {
    let settings = VisionSettings {
        enabled: true,
        base_url: "http://localhost:1/v1".to_string(),
        api_key: "k".to_string(),
        model: "m".to_string(),
    };
    let run = settings.config(&environment([None, None, None, Some("7")]));
    assert_eq!((run.base_url.as_str(), run.api_key.as_str()), ("http://localhost:1/v1", "k"));
    assert_eq!((run.model.as_str(), run.timeout_secs), ("m", 7));
    let other = settings.config(&environment([None, None, Some("other"), None]));
    assert_eq!((other.model.as_str(), other.timeout_secs), ("other", 600));
    assert_eq!(other.base_url, "http://localhost:1/v1");
}

#[test]
fn requests_go_to_the_completions_path_with_the_key() {
    assert_eq!(config("http://h.local/v1//", "").chat_url(), "http://h.local/v1/chat/completions");
    let request = chat(&config("http://localhost:1/v1/", "key"), "{}".to_string()).unwrap();
    assert_eq!(request.url, "http://localhost:1/v1/chat/completions");
    assert_eq!(request.authorization.as_deref(), Some("Bearer key"));
    assert_eq!(request.timeout_secs, 5);
    assert_eq!(request.body, "{}");
    let open = chat(&config("http://localhost:1/v1", ""), "{}".to_string()).unwrap();
    assert!(open.authorization.is_none());
}

#[test]
fn no_request_leaves_for_a_public_endpoint() {
    let public = config("https://api.openai.com/v1", "key");
    let error: NonLocalEndpoint = caption_image(&public, b"png", "page 1").unwrap_err();
    assert_eq!(error.host, "api.openai.com");
    assert_eq!(
        error.message(),
        "refusing a non-local endpoint: api.openai.com (local-only for now)"
    );
    assert!(probe_endpoint(&public).is_err());
    assert!(chat(&public, "{}".to_string()).is_err());
}

#[test]
fn a_caption_request_is_json_that_carries_the_image() {
    let request = caption_image(&config("http://localhost:1/v1", ""), b"hello", "a \"hint\"\n").unwrap();
    let body: serde_json::Value = serde_json::from_str(&request.body).unwrap();
    assert_eq!(body["model"], "m");
    assert_eq!(body["max_tokens"], 256);
    assert_eq!(body["temperature"], 0.2);
    assert_eq!(body["messages"][0]["role"], "user");
    let content = &body["messages"][0]["content"];
    assert_eq!(content[0]["type"], "text");
    assert_eq!(content[0]["text"], caption_prompt("a \"hint\"\n"));
    assert_eq!(content[1]["type"], "image_url");
    assert_eq!(content[1]["image_url"]["url"], "data:image/png;base64,aGVsbG8=");
}

#[test]
fn the_probe_sends_its_image() {
    let request = probe_endpoint(&config("http://localhost:1/v1", "")).unwrap();
    let encoded = base64_encode(&probe_image().unwrap());
    assert!(request.body.contains(&encoded));
}

#[test]
fn replies_are_read_or_refused() {
    let reply = "{\"choices\":[{\"message\":{\"content\":\"  A chart. \"}}]}";
    assert_eq!(read_caption(200, "200 OK", reply).unwrap(), "A chart.");
    let refused = read_caption(500, "500 Internal Server Error", &"x".repeat(300)).unwrap_err();
    assert_eq!(
        refused.message(),
        format!("model returned 500 Internal Server Error: {}", "x".repeat(200))
    );
    assert!(matches!(read_caption(200, "200 OK", "no json"), Err(ReplyError::NotJson)));
    assert_eq!(read_caption(200, "200 OK", "no json").unwrap_err().message(), "model returned non-JSON");
    let thinking = "{\"choices\":[{\"message\":{\"content\":\"\",\"reasoning_content\":\"hm\"}}]}";
    let empty = read_caption(200, "200 OK", thinking).unwrap_err();
    assert!(matches!(empty, ReplyError::EmptyCaption));
    assert_eq!(
        empty.message(),
        "vision model returned an empty caption (degenerate image or tiny budget)"
    );
    assert!(accept_reply(200, "200 OK", "").is_ok());
    assert!(matches!(caption_from(true, None), Err(ReplyError::EmptyCaption)));
    assert!(matches!(caption_from(false, Some("x".to_string())), Err(ReplyError::NotJson)));
}

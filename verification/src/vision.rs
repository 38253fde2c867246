//! Talking to a vision model: the settings, the requests and what their replies mean.

use vstd::arithmetic::div_mod::lemma_fundamental_div_mod_converse;
use vstd::prelude::*;

pub use crate::endpoint::{ensure_local_endpoint, is_local_host};

use crate::endpoint::{local_endpoint, url_host, NonLocalEndpoint};
use crate::json::{
    is_json, json_entry, json_entry_text, json_quote, json_reply, json_string, json_valid,
};
use crate::render::{encode_png, png_image};
use crate::text::{
    chars_of, drop_trailing, one_of, optional, owned, parse_number, push_chars, read_number,
    trim, trim_end_of, trimmed,
};

verus! {

// ---------------------------------------------------------------------------------------------
// Settings

/// What one run uses.
#[derive(Debug)]
pub struct VisionConfig {
    pub base_url: String,
    pub api_key: String,
    pub model: String,
    pub timeout_secs: u64,
}

#[verifier::ext_equal]
pub struct ConfigData {
    pub base_url: Seq<char>,
    pub api_key: Seq<char>,
    pub model: Seq<char>,
    pub timeout_secs: u64,
}

impl View for VisionConfig {
    type V = ConfigData;

    open spec fn view(&self) -> ConfigData {
        ConfigData {
            base_url: self.base_url@,
            api_key: self.api_key@,
            model: self.model@,
            timeout_secs: self.timeout_secs,
        }
    }
}

/// Two configurations with the same contents agree in every field.
pub proof fn contents_tell_configurations_apart(a: VisionConfig, b: VisionConfig)
    requires
        a@ == b@,
    ensures
        a.base_url@ == b.base_url@,
        a.api_key@ == b.api_key@,
        a.model@ == b.model@,
        a.timeout_secs == b.timeout_secs,
{
}

/// The value of a variable, or what stands for it where it is not set.
pub open spec fn value_or(value: Option<Seq<char>>, otherwise: Seq<char>) -> Seq<char> {
    match value {
        Some(text) => text,
        None => otherwise,
    }
}

/// The timeout that a variable asks for: ten minutes where it is not set or no number.
pub open spec fn timeout_of(value: Option<Seq<char>>) -> nat {
    match value {
        Some(text) => match parse_number(text, u64::MAX as nat) {
            Some(n) => n,
            None => 600,
        },
        None => 600,
    }
}

/// The endpoint where chat completions are asked for.
pub open spec fn completions_url(base_url: Seq<char>) -> Seq<char> {
    drop_trailing(base_url, one_of(seq!['/'])) + "/chat/completions"@
}

fn given_or(value: &Option<String>, otherwise: &str) -> (r: String)
    ensures
        r@ == value_or(optional(*value), otherwise@),
{
    match value {
        Some(text) => text.clone(),
        None => owned(otherwise),
    }
}

/// The variables of the environment that concern the engine, where they are set.
#[derive(Debug)]
pub struct Environment {
    pub url: Option<String>,
    pub key: Option<String>,
    pub model: Option<String>,
    /// The seconds that a request may take.
    pub timeout: Option<String>,
}

/// The values of the environment, and behind them those that stand for what it leaves open.
pub open spec fn configured(
    env: Environment,
    base_url: Seq<char>,
    api_key: Seq<char>,
    model: Seq<char>,
) -> ConfigData {
    ConfigData {
        base_url: value_or(optional(env.url), base_url),
        api_key: value_or(optional(env.key), api_key),
        model: value_or(optional(env.model), model),
        timeout_secs: timeout_of(optional(env.timeout)) as u64,
    }
}

pub const DEFAULT_URL: &'static str = "http://127.0.0.1:11234/v1";

pub const DEFAULT_MODEL: &'static str = "ddalcu/Qwen3.8-Flash-Next-MLX-Serve-mixed-4-8bit";

fn configure(env: &Environment, base_url: &str, api_key: &str, model: &str) -> (r: VisionConfig)
    ensures
        r@ == configured(*env, base_url@, api_key@, model@),
{
    let timeout_secs: u64 = match &env.timeout {
        Some(text) => {
            let chars = chars_of(text.as_str());
            match read_number(chars.as_slice(), u64::MAX) {
                Some(n) => n,
                None => 600,
            }
        },
        None => 600,
    };
    VisionConfig {
        base_url: given_or(&env.url, base_url),
        api_key: given_or(&env.key, api_key),
        model: given_or(&env.model, model),
        timeout_secs,
    }
}

impl VisionConfig {
    /// What the environment asks for; the defaults point at an engine on this machine.
    pub fn from_env(env: &Environment) -> (r: Self)
        ensures
            r@ == configured(*env, DEFAULT_URL@, ""@, DEFAULT_MODEL@),
            env.url matches Some(text) ==> r.base_url@ == text@,
            env.key matches Some(text) ==> r.api_key@ == text@,
            env.model matches Some(text) ==> r.model@ == text@,
            env.url is None ==> r.base_url@ == DEFAULT_URL@,
            env.key is None ==> r.api_key@ == ""@,
            env.model is None ==> r.model@ == DEFAULT_MODEL@,
            env.timeout is None ==> r.timeout_secs == 600,
            env.timeout matches Some(text) ==> (parse_number(text@, u64::MAX as nat) matches Some(n)
                ==> r.timeout_secs == n) && (parse_number(text@, u64::MAX as nat) is None
                ==> r.timeout_secs == 600),
    {
        configure(env, DEFAULT_URL, "", DEFAULT_MODEL)
    }

    /// The endpoint where chat completions are asked for.
    pub fn chat_url(&self) -> (r: String)
        ensures
            r@ == completions_url(self.base_url@),
    {
        let chars = chars_of(self.base_url.as_str());
        let slash: [char; 1] = ['/'];
        assert(slash@ =~= seq!['/']);
        let mut out = String::new();
        push_chars(&mut out, trim_end_of(chars.as_slice(), slash.as_slice()));
        out.push_str("/chat/completions");
        assert(out@ =~= completions_url(self.base_url@));
        out
    }
}

/// What the user configured, as distinct from what one run uses; kept beside the index.
#[derive(Debug, PartialEq, Eq)]
pub struct VisionSettings {
    /// Off where the user has not turned it on: captioning costs seconds per figure.
    pub enabled: bool,
    pub base_url: String,
    pub api_key: String,
    pub model: String,
}

#[verifier::ext_equal]
pub struct SettingsData {
    pub enabled: bool,
    pub base_url: Seq<char>,
    pub api_key: Seq<char>,
    pub model: Seq<char>,
}

impl View for VisionSettings {
    type V = SettingsData;

    open spec fn view(&self) -> SettingsData {
        SettingsData {
            enabled: self.enabled,
            base_url: self.base_url@,
            api_key: self.api_key@,
            model: self.model@,
        }
    }
}

/// Two settings with the same contents agree in every field.
pub proof fn contents_tell_settings_apart(a: VisionSettings, b: VisionSettings)
    requires
        a@ == b@,
    ensures
        a.enabled == b.enabled,
        a.base_url@ == b.base_url@,
        a.api_key@ == b.api_key@,
        a.model@ == b.model@,
{
}

impl Clone for VisionSettings {
    fn clone(&self) -> (r: Self)
        ensures
            r@ == self@,
    {
        VisionSettings {
            enabled: self.enabled,
            base_url: self.base_url.clone(),
            api_key: self.api_key.clone(),
            model: self.model.clone(),
        }
    }
}

impl VisionSettings {
    /// The settings of a user who has configured nothing: those of the environment, with captioning
    /// off.
    pub fn defaults(configured: VisionConfig) -> (r: Self)
        ensures
            r@ == (SettingsData {
                enabled: false,
                base_url: configured.base_url@,
                api_key: configured.api_key@,
                model: configured.model@,
            }),
            !r.enabled,
            r.base_url@ == configured.base_url@,
            r.api_key@ == configured.api_key@,
            r.model@ == configured.model@,
    {
        VisionSettings {
            enabled: false,
            base_url: configured.base_url,
            api_key: configured.api_key,
            model: configured.model,
        }
    }

    /// What a run with these settings uses: the environment overrides what was configured.
    pub fn config(&self, env: &Environment) -> (r: VisionConfig)
        ensures
            r@ == configured(*env, self.base_url@, self.api_key@, self.model@),
            env.url matches Some(text) ==> r.base_url@ == text@,
            env.key matches Some(text) ==> r.api_key@ == text@,
            env.model matches Some(text) ==> r.model@ == text@,
            env.url is None ==> r.base_url@ == self.base_url@,
            env.key is None ==> r.api_key@ == self.api_key@,
            env.model is None ==> r.model@ == self.model@,
            env.timeout is None ==> r.timeout_secs == 600,
            env.timeout matches Some(text) ==> (parse_number(text@, u64::MAX as nat) matches Some(n)
                ==> r.timeout_secs == n) && (parse_number(text@, u64::MAX as nat) is None
                ==> r.timeout_secs == 600),
    {
        configure(env, self.base_url.as_str(), self.api_key.as_str(), self.model.as_str())
    }
}

// ---------------------------------------------------------------------------------------------
// Requests

/// A request to the configured engine.
#[derive(Debug)]
pub struct Request {
    pub url: String,
    /// The value of the `Authorization` header, where the endpoint needs a key.
    pub authorization: Option<String>,
    pub timeout_secs: u64,
    pub body: String,
}

/// The `Authorization` header for a key.
pub open spec fn bearer(api_key: Seq<char>) -> Option<Seq<char>> {
    if api_key.len() == 0 {
        None
    } else {
        Some("Bearer "@ + api_key)
    }
}

/// The request is the one that a configuration makes of a body.
pub open spec fn posts(request: Request, config: ConfigData, body: Seq<char>) -> bool {
    &&& request.url@ == completions_url(config.base_url)
    &&& optional(request.authorization) == bearer(config.api_key)
    &&& request.timeout_secs == config.timeout_secs
    &&& request.body@ == body
}

/// Prepares one chat turn against the configured engine. The rule on local endpoints comes before
/// anything is sent: for another endpoint there is no request.
pub fn chat(config: &VisionConfig, body: String) -> (r: Result<Request, NonLocalEndpoint>)
    ensures
        match r {
            Ok(request) => local_endpoint(completions_url(config.base_url@)) && posts(
                request,
                config@,
                body@,
            ),
            Err(error) => !local_endpoint(completions_url(config.base_url@)) && error.host@
                == url_host(completions_url(config.base_url@)),
        },
        r matches Ok(request) ==> {
            &&& request.timeout_secs == config.timeout_secs
            &&& config.api_key@.len() == 0 ==> request.authorization is None
            &&& config.api_key@.len() > 0 ==> (request.authorization matches Some(header) && header@
                == "Bearer "@ + config.api_key@)
            &&& request.url@ == completions_url(config.base_url@)
            &&& request.body@ == body@
        },
{
    let url = config.chat_url();
    match ensure_local_endpoint(url.as_str()) {
        Ok(()) => {
            let authorization = if config.api_key.as_str().is_empty() {
                None
            } else {
                let mut header = owned("Bearer ");
                header.push_str(config.api_key.as_str());
                Some(header)
            };
            Ok(Request { url, authorization, timeout_secs: config.timeout_secs, body })
        },
        Err(error) => Err(error),
    }
}

/// Chat completions are asked for under the base address, with one slash between the two however
/// many the address ends in.
pub proof fn completions_stand_under_the_base(base_url: Seq<char>)
    ensures
        base_url.len() > 0 && base_url.last() != '/' ==> completions_url(base_url) == base_url
            + "/chat/completions"@,
        completions_url(base_url + "/"@) == completions_url(base_url),
{
    reveal_strlit("/");
    let p = one_of(seq!['/']);
    let slash = seq!['/'];
    assert(slash[0] == '/');
    assert(slash.contains('/'));
    let more = base_url + "/"@;
    assert(more.last() == '/');
    assert(p(more.last()));
    assert(more.drop_last() =~= base_url);
    if base_url.len() > 0 && base_url.last() != '/' {
        assert(!p(base_url.last()));
    }
}

/// A timeout is the number of seconds that was asked for.
pub proof fn timeouts_are_as_asked(seconds: nat)
    requires
        seconds <= u64::MAX,
    ensures
        timeout_of(Some(crate::text::decimal(seconds))) == seconds,
        timeout_of(None) == 600,
{
    crate::text::decimals_have_base_ten(seconds, 0, u64::MAX as nat);
}

/// The version of the wording below. A cache keyed on the page image alone would keep serving
/// captions made by an outdated prompt, so this changes with it.
pub const PROMPT_VERSION: &'static str = "v1";

pub const CAPTION_REQUEST: &'static str = "You are indexing a document for retrieval. Describe this figure/diagram clearly for search. Name the key elements and transcribe their labels \u{2014} altitudes, angles, distances, gradients, callouts \u{2014} exactly as printed. Answer in two or three plain sentences with no headings, bold or bullet lists. Context: ";

/// The prompt for a caption; `hint` says what the image is of.
pub fn caption_prompt(hint: &str) -> (r: String)
    ensures
        r@ == CAPTION_REQUEST@ + hint@,
{
    let mut out = owned(CAPTION_REQUEST);
    out.push_str(hint);
    out
}

// ---------------------------------------------------------------------------------------------
// Base64

/// The digit of six bits.
pub open spec fn sextet(n: int) -> char {
    if n < 26 {
        (65 + n) as char
    } else if n < 52 {
        (71 + n) as char
    } else if n < 62 {
        (n - 4) as char
    } else if n == 62 {
        '+'
    } else {
        '/'
    }
}

/// Bytes in base64 notation: four digits for every three bytes, with padding at the end.
pub open spec fn base64(bytes: Seq<u8>) -> Seq<char>
    decreases bytes.len(),
{
    if bytes.len() == 0 {
        Seq::empty()
    } else if bytes.len() == 1 {
        let n = bytes[0] as int * 65536;
        seq![sextet(n / 262144), sextet((n / 4096) % 64), '=', '=']
    } else if bytes.len() == 2 {
        let n = bytes[0] as int * 65536 + bytes[1] as int * 256;
        seq![sextet(n / 262144), sextet((n / 4096) % 64), sextet((n / 64) % 64), '=']
    } else {
        let n = bytes[0] as int * 65536 + bytes[1] as int * 256 + bytes[2] as int;
        seq![
            sextet(n / 262144),
            sextet((n / 4096) % 64),
            sextet((n / 64) % 64),
            sextet(n % 64),
        ] + base64(bytes.skip(3))
    }
}

fn sextet_char(n: u32) -> (r: char)
    requires
        n < 64,
    ensures
        r == sextet(n as int),
{
    let d: u8 = n as u8;
    if d < 26 {
        (65 + d) as char
    } else if d < 52 {
        (71 + d) as char
    } else if d < 62 {
        (d - 4) as char
    } else if d == 62 {
        '+'
    } else {
        '/'
    }
}

/// The bytes in base64 notation.
pub fn base64_encode(bytes: &[u8]) -> (r: String)
    ensures
        r@ == base64(bytes@),
{
    let mut out = String::new();
    let mut i: usize = 0;
    let size: usize = bytes.len();
    assert(bytes@.skip(0) =~= bytes@);
    assert(out@ + base64(bytes@) =~= base64(bytes@));
    while size - i >= 3
        invariant
            i <= size,
            size == bytes@.len(),
            out@ + base64(bytes@.skip(i as int)) == base64(bytes@),
        decreases size - i,
    {
        let n: u32 = bytes[i] as u32 * 65536 + bytes[i + 1] as u32 * 256 + bytes[i + 2] as u32;
        let ghost before = out@;
        out.push(sextet_char(n / 262144));
        out.push(sextet_char((n / 4096) % 64));
        out.push(sextet_char((n / 64) % 64));
        out.push(sextet_char(n % 64));
        assert(bytes@.skip(i as int).skip(3) =~= bytes@.skip(i + 3));
        assert(out@ + base64(bytes@.skip(i + 3)) =~= before + base64(bytes@.skip(i as int)));
        i += 3;
    }
    let ghost rest = bytes@.skip(i as int);
    let ghost before = out@;
    if size - i == 1 {
        let n: u32 = bytes[i] as u32 * 65536;
        out.push(sextet_char(n / 262144));
        out.push(sextet_char((n / 4096) % 64));
        out.push('=');
        out.push('=');
    } else if size - i == 2 {
        let n: u32 = bytes[i] as u32 * 65536 + bytes[i + 1] as u32 * 256;
        out.push(sextet_char(n / 262144));
        out.push(sextet_char((n / 4096) % 64));
        out.push(sextet_char((n / 64) % 64));
        out.push('=');
    }
    assert(out@ =~= before + base64(rest));
    out
}

/// The digits of base64 are the capitals, the small letters, the decimal digits and two signs.
pub proof fn base64_has_its_digits(n: int)
    requires
        0 <= n < 64,
    ensures
        sextet(n) == "ABCDEFGHIJKLMNOPQRSTUVWXYZabcdefghijklmnopqrstuvwxyz0123456789+/"@[n],
{
    reveal_strlit("ABCDEFGHIJKLMNOPQRSTUVWXYZabcdefghijklmnopqrstuvwxyz0123456789+/");
}

/// The value of a base64 digit.
pub open spec fn sextet_value(c: char) -> int {
    if 'A' <= c <= 'Z' {
        c as int - 65
    } else if 'a' <= c <= 'z' {
        c as int - 71
    } else if '0' <= c <= '9' {
        c as int + 4
    } else if c == '+' {
        62
    } else {
        63
    }
}

/// The bytes that base64 notation writes.
pub open spec fn unbase64(text: Seq<char>) -> Seq<u8>
    decreases text.len(),
{
    if text.len() < 4 {
        Seq::empty()
    } else {
        let a = sextet_value(text[0]);
        let b = sextet_value(text[1]);
        let c = sextet_value(text[2]);
        let d = sextet_value(text[3]);
        let first = (a * 4 + b / 16) as u8;
        let second = ((b % 16) * 16 + c / 4) as u8;
        let third = ((c % 4) * 64 + d) as u8;
        let bytes = if text[2] == '=' {
            seq![first]
        } else if text[3] == '=' {
            seq![first, second]
        } else {
            seq![first, second, third]
        };
        bytes + unbase64(text.skip(4))
    }
}

proof fn lemma_sextet(n: int)
    requires
        0 <= n < 64,
    ensures
        sextet_value(sextet(n)) == n,
        sextet(n) != '=',
{
}

/// Three bytes come back from the four numbers of six bits that they are cut into.
proof fn lemma_triple(x: int, y: int, z: int)
    requires
        0 <= x < 256,
        0 <= y < 256,
        0 <= z < 256,
    ensures
        ({
            let n = x * 65536 + y * 256 + z;
            let a = n / 262144;
            let b = (n / 4096) % 64;
            let c = (n / 64) % 64;
            let d = n % 64;
            &&& 0 <= a < 64 && 0 <= b < 64 && 0 <= c < 64 && 0 <= d < 64
            &&& a * 4 + b / 16 == x
            &&& (b % 16) * 16 + c / 4 == y
            &&& (c % 4) * 64 + d == z
        }),
{
    let n = x * 65536 + y * 256 + z;
    let (p, q) = (x / 4, x % 4);
    let (r, s) = (y / 16, y % 16);
    let (t, u) = (z / 64, z % 64);
    assert(n == 262144 * p + 65536 * q + 4096 * r + 256 * s + 64 * t + u);
    lemma_fundamental_div_mod_converse(n, 262144, p, 65536 * q + 4096 * r + 256 * s + 64 * t + u);
    lemma_fundamental_div_mod_converse(n, 4096, 64 * p + 16 * q + r, 256 * s + 64 * t + u);
    lemma_fundamental_div_mod_converse(64 * p + 16 * q + r, 64, p, 16 * q + r);
    lemma_fundamental_div_mod_converse(n, 64, 4096 * p + 1024 * q + 64 * r + 4 * s + t, u);
    lemma_fundamental_div_mod_converse(
        4096 * p + 1024 * q + 64 * r + 4 * s + t,
        64,
        64 * p + 16 * q + r,
        4 * s + t,
    );
    lemma_fundamental_div_mod_converse(16 * q + r, 16, q, r);
    lemma_fundamental_div_mod_converse(4 * s + t, 4, s, t);
}

/// Base64 notation loses nothing.
pub proof fn base64_is_lossless(bytes: Seq<u8>)
    ensures
        unbase64(base64(bytes)) == bytes,
    decreases bytes.len(),
{
    let text = base64(bytes);
    if bytes.len() > 0 {
        let y = if bytes.len() > 1 {
            bytes[1] as int
        } else {
            0
        };
        let z = if bytes.len() > 2 {
            bytes[2] as int
        } else {
            0
        };
        let n = bytes[0] as int * 65536 + y * 256 + z;
        lemma_triple(bytes[0] as int, y, z);
        lemma_sextet(n / 262144);
        lemma_sextet((n / 4096) % 64);
        lemma_sextet((n / 64) % 64);
        lemma_sextet(n % 64);
        if bytes.len() >= 3 {
            base64_is_lossless(bytes.skip(3));
            assert(text.skip(4) =~= base64(bytes.skip(3)));
            assert(seq![bytes[0], bytes[1], bytes[2]] + bytes.skip(3) =~= bytes);
        } else {
            assert(text.skip(4) =~= Seq::<char>::empty());
            assert(unbase64(text.skip(4)) =~= Seq::<u8>::empty());
            assert(unbase64(text) =~= bytes);
        }
    }
}

// ---------------------------------------------------------------------------------------------
// Captions

/// The body of a caption request. The number of tokens is bounded because a caption becomes one
/// chunk, and what passes the limit of a chunk never reaches the embedding model.
pub open spec fn caption_body(model: Seq<char>, prompt: Seq<char>, png: Seq<u8>) -> Seq<char> {
    "{\"max_tokens\":256,\"messages\":[{\"content\":[{\"text\":"@ + json_string(prompt)
        + ",\"type\":\"text\"},{\"image_url\":{\"url\":"@ + json_string(
        "data:image/png;base64,"@ + base64(png),
    ) + "},\"type\":\"image_url\"}],\"role\":\"user\"}],\"model\":"@ + json_string(model)
        + ",\"temperature\":0.2}"@
}

/// A request for a caption carries the prompt as a text and the image as base64 in the address of
/// a picture, both in one message of the user, and names the model.
pub proof fn caption_requests_carry_prompt_and_image(
    model: Seq<char>,
    prompt: Seq<char>,
    png: Seq<u8>,
)
    ensures
        ({
            let text = "{\"text\":"@ + json_string(prompt) + ",\"type\":\"text\"}"@;
            let image = "{\"image_url\":{\"url\":"@ + json_string(
                "data:image/png;base64,"@ + base64(png),
            ) + "},\"type\":\"image_url\"}"@;
            caption_body(model, prompt, png) == "{\"max_tokens\":256,\"messages\":[{\"content\":["@
                + text + ","@ + image + "],\"role\":\"user\"}],\"model\":"@ + json_string(model)
                + ",\"temperature\":0.2}"@
        }),
{
    reveal_strlit("{\"text\":");
    reveal_strlit(",\"type\":\"text\"}");
    reveal_strlit("{\"image_url\":{\"url\":");
    reveal_strlit("},\"type\":\"image_url\"}");
    reveal_strlit("{\"max_tokens\":256,\"messages\":[{\"content\":[");
    reveal_strlit(",");
    reveal_strlit("],\"role\":\"user\"}],\"model\":");
    reveal_strlit("{\"max_tokens\":256,\"messages\":[{\"content\":[{\"text\":");
    reveal_strlit(",\"type\":\"text\"},{\"image_url\":{\"url\":");
    reveal_strlit("},\"type\":\"image_url\"}],\"role\":\"user\"}],\"model\":");
    let text = "{\"text\":"@ + json_string(prompt) + ",\"type\":\"text\"}"@;
    let image = "{\"image_url\":{\"url\":"@ + json_string("data:image/png;base64,"@ + base64(png))
        + "},\"type\":\"image_url\"}"@;
    assert("{\"max_tokens\":256,\"messages\":[{\"content\":[{\"text\":"@
        =~= "{\"max_tokens\":256,\"messages\":[{\"content\":["@ + "{\"text\":"@);
    assert(",\"type\":\"text\"},{\"image_url\":{\"url\":"@ =~= ",\"type\":\"text\"}"@ + ","@
        + "{\"image_url\":{\"url\":"@);
    assert("},\"type\":\"image_url\"}],\"role\":\"user\"}],\"model\":"@
        =~= "},\"type\":\"image_url\"}"@ + "],\"role\":\"user\"}],\"model\":"@);
    assert(caption_body(model, prompt, png)
        =~= "{\"max_tokens\":256,\"messages\":[{\"content\":["@ + text + ","@ + image
        + "],\"role\":\"user\"}],\"model\":"@ + json_string(model) + ",\"temperature\":0.2}"@);
}

/// Prepares the request for a caption of a page image; `hint` says what the image is of, so that
/// the model can tie labels to meaning.
pub fn caption_image(config: &VisionConfig, png: &[u8], hint: &str) -> (r: Result<
    Request,
    NonLocalEndpoint,
>)
    ensures
        match r {
            Ok(request) => local_endpoint(completions_url(config.base_url@)) && posts(
                request,
                config@,
                caption_body(config.model@, CAPTION_REQUEST@ + hint@, png@),
            ),
            Err(error) => !local_endpoint(completions_url(config.base_url@)) && error.host@
                == url_host(completions_url(config.base_url@)),
        },
{
    let prompt = caption_prompt(hint);
    let mut image = owned("data:image/png;base64,");
    image.push_str(base64_encode(png).as_str());
    let mut body = owned("{\"max_tokens\":256,\"messages\":[{\"content\":[{\"text\":");
    body.push_str(json_quote(prompt.as_str()).as_str());
    body.push_str(",\"type\":\"text\"},{\"image_url\":{\"url\":");
    body.push_str(json_quote(image.as_str()).as_str());
    body.push_str("},\"type\":\"image_url\"}],\"role\":\"user\"}],\"model\":");
    body.push_str(json_quote(config.model.as_str()).as_str());
    body.push_str(",\"temperature\":0.2}");
    chat(config, body)
}

/// Why a reply cannot be used.
#[derive(Debug)]
pub enum ReplyError {
    /// The engine answered with another status than success.
    Status { status: String, excerpt: String },
    /// The reply is no JSON.
    NotJson,
    /// The reply holds no caption.
    EmptyCaption,
}

/// The first characters of a text, at most 200.
pub open spec fn excerpt_of(text: Seq<char>) -> Seq<char> {
    if text.len() <= 200 {
        text
    } else {
        text.take(200)
    }
}

impl ReplyError {
    /// What the user is told.
    pub open spec fn text(&self) -> Seq<char> {
        match self {
            ReplyError::Status { status, excerpt } => "model returned "@ + status@ + ": "@
                + excerpt@,
            ReplyError::NotJson => "model returned non-JSON"@,
            ReplyError::EmptyCaption =>
                "vision model returned an empty caption (degenerate image or tiny budget)"@,
        }
    }

    /// What the user is told.
    pub fn message(&self) -> (r: String)
        ensures
            r@ == self.text(),
            self matches ReplyError::Status { status: s, excerpt: e } ==> r@ == "model returned "@
                + s@ + ": "@ + e@,
            self is NotJson ==> r@ == "model returned non-JSON"@,
            self is EmptyCaption ==> r@
                == "vision model returned an empty caption (degenerate image or tiny budget)"@,
    {
        match self {
            ReplyError::Status { status, excerpt } => {
                let mut out = owned("model returned ");
                out.push_str(status.as_str());
                out.push_str(": ");
                out.push_str(excerpt.as_str());
                out
            },
            ReplyError::NotJson => owned("model returned non-JSON"),
            ReplyError::EmptyCaption => owned(
                "vision model returned an empty caption (degenerate image or tiny budget)",
            ),
        }
    }
}

/// The beginning of a text.
fn excerpt(text: &str) -> (r: String)
    ensures
        r@ == excerpt_of(text@),
{
    let chars = chars_of(text);
    let n: usize = if chars.len() < 200 {
        chars.len()
    } else {
        200
    };
    let part = vstd::slice::slice_subrange(chars.as_slice(), 0, n);
    assert(part@ =~= excerpt_of(text@));
    crate::text::string_of(part)
}

/// Passes a reply on where the engine answered with success; `status` is the code, and
/// `status_text` how it is shown.
pub fn accept_reply(status: u16, status_text: &str, text: &str) -> (r: Result<(), ReplyError>)
    ensures
        match r {
            Ok(()) => status == 200,
            Err(ReplyError::Status { status: s, excerpt: e }) => status != 200 && s@ == status_text@
                && e@ == excerpt_of(text@),
            Err(_) => false,
        },
        r is Ok <==> status == 200,
        r matches Err(ReplyError::Status { status: s, excerpt: e }) ==> e@.len() <= 200 && e@
            == text@.take(e@.len() as int) && (e@.len() < 200 ==> e@ == text@),
{
    if status != 200 {
        return Err(ReplyError::Status { status: owned(status_text), excerpt: excerpt(text) });
    }
    Ok(())
}

/// The caption that a reply holds, given whether the reply is JSON and the text at the place where
/// the caption stands. The reasoning of a model is no caption, and an empty text is a failure.
pub fn caption_from(valid: bool, content: Option<String>) -> (r: Result<String, ReplyError>)
    ensures
        match r {
            Ok(caption) => valid && caption@.len() > 0 && caption@ == trim(
                value_or(optional(content), Seq::empty()),
            ),
            Err(ReplyError::NotJson) => !valid,
            Err(ReplyError::EmptyCaption) => valid && trim(
                value_or(optional(content), Seq::empty()),
            ).len() == 0,
            Err(ReplyError::Status { .. }) => false,
        },
        valid && content is None ==> (r matches Err(ReplyError::EmptyCaption)),
        valid ==> (content matches Some(text) ==> (trim(text@).len() > 0 ==> (r matches Ok(caption)
            && caption@ == trim(text@)))),
{
    if !valid {
        return Err(ReplyError::NotJson);
    }
    let text = match content {
        Some(text) => text,
        None => String::new(),
    };
    let caption = trimmed(text.as_str());
    if caption.as_str().is_empty() {
        Err(ReplyError::EmptyCaption)
    } else {
        Ok(caption)
    }
}

/// The text at the place of a reply where an answer stands.
pub open spec fn reply_content(text: Seq<char>) -> Option<Seq<char>> {
    json_entry_text(text, "choices"@, 0, "message"@, "content"@)
}

/// The reply of an engine that says one thing.
pub open spec fn reply_body(content: Seq<char>) -> Seq<char> {
    json_reply("choices"@, "message"@, "content"@, content)
}

/// Reads the caption out of the engine's reply.
pub fn read_caption(status: u16, status_text: &str, text: &str) -> (r: Result<String, ReplyError>)
    ensures
        match r {
            Ok(caption) => status == 200 && is_json(text@) && caption@.len() > 0 && caption@
                == trim(value_or(reply_content(text@), Seq::empty())),
            Err(ReplyError::Status { status: s, excerpt: e }) => status != 200 && s@ == status_text@
                && e@ == excerpt_of(text@),
            Err(ReplyError::NotJson) => status == 200 && !is_json(text@),
            Err(ReplyError::EmptyCaption) => status == 200 && is_json(text@) && trim(
                value_or(reply_content(text@), Seq::empty()),
            ).len() == 0,
        },
        forall|content: Seq<char>|
            status == 200 && text@ == #[trigger] reply_body(content) && trim(content).len() > 0
                ==> (r matches Ok(caption) && caption@ == trim(content)),
{
    match accept_reply(status, status_text, text) {
        Ok(()) => caption_from(
            json_valid(text),
            json_entry(text, "choices", 0, "message", "content"),
        ),
        Err(error) => Err(error),
    }
}

// ---------------------------------------------------------------------------------------------
// The probe

/// The width and the height of the probe image.
pub const PROBE_WIDTH: u32 = 96;

pub const PROBE_HEIGHT: u32 = 64;

/// The pixel of the probe image in column `x` and row `y` is dark: a bar at the bottom, and marks.
pub open spec fn probe_dark(x: int, y: int) -> bool {
    y > 40 || (x + y) % 17 == 0
}

/// The byte at a position of the probe image.
pub open spec fn probe_byte(i: int) -> u8 {
    let pixel = i / 4;
    if i % 4 == 3 {
        255
    } else if probe_dark(pixel % (PROBE_WIDTH as int), pixel / (PROBE_WIDTH as int)) {
        20
    } else {
        255
    }
}

/// The pixels of the probe image.
pub open spec fn probe_bytes() -> Seq<u8> {
    Seq::new(24576, |i: int| probe_byte(i))
}

/// The probe image has 96 pixels in each of 64 rows, with four bytes each: dark ones in a bar at the
/// bottom and on slanting lines, white ones elsewhere, and none of them see-through.
pub proof fn probes_show_a_bar_and_marks(x: int, y: int, channel: int)
    requires
        0 <= x < 96,
        0 <= y < 64,
        0 <= channel < 4,
    ensures
        probe_bytes().len() == 4 * 96 * 64,
        probe_bytes()[4 * (96 * y + x) + channel] == (if channel < 3 && (y > 40 || (x + y) % 17 == 0) {
            20int
        } else {
            255int
        }),
{
    let pixel = 96 * y + x;
    let i = 4 * pixel + channel;
    lemma_fundamental_div_mod_converse(i, 4, pixel, channel);
    lemma_fundamental_div_mod_converse(pixel, 96, y, x);
}

fn probe_pixels() -> (r: Vec<u8>)
    ensures
        r@ == probe_bytes(),
{
    let mut out: Vec<u8> = Vec::new();
    let mut pixel: u32 = 0;
    while pixel < 6144
        invariant
            pixel <= 6144,
            out@.len() == 4 * pixel,
            forall|i: int| 0 <= i < 4 * pixel ==> #[trigger] out@[i] == probe_byte(i),
        decreases 6144 - pixel,
    {
        let x: u32 = pixel % PROBE_WIDTH;
        let y: u32 = pixel / PROBE_WIDTH;
        let shade: u8 = if y > 40 || (x + y) % 17 == 0 {
            20
        } else {
            255
        };
        out.push(shade);
        out.push(shade);
        out.push(shade);
        out.push(255);
        pixel += 1;
    }
    assert(out@ =~= probe_bytes());
    out
}

/// A small synthetic figure, so that whether an endpoint takes images can be asked without a file.
pub fn probe_image() -> (r: Option<Vec<u8>>)
    ensures
        crate::render::optional_bytes(r) == png_image(PROBE_WIDTH, PROBE_HEIGHT, probe_bytes()),
{
    encode_png(PROBE_WIDTH, PROBE_HEIGHT, probe_pixels())
}

/// Why an endpoint cannot be probed.
#[derive(Debug)]
pub enum ProbeError {
    /// The probe image could not be encoded.
    Image,
    /// The endpoint lies outside the local network.
    Endpoint(NonLocalEndpoint),
}

/// What the probe asks.
pub const PROBE_HINT: &'static str = "This is a test image. Describe what you can see in one short sentence.";

/// Prepares a real image for the configured endpoint: what an engine advertises has proved
/// unreliable, so that the only test is to send one.
pub fn probe_endpoint(config: &VisionConfig) -> (r: Result<Request, ProbeError>)
    ensures
        ({
            let png = png_image(PROBE_WIDTH, PROBE_HEIGHT, probe_bytes());
            let url = completions_url(config.base_url@);
            match r {
                Ok(request) => png is Some && local_endpoint(url) && posts(
                    request,
                    config@,
                    caption_body(config.model@, CAPTION_REQUEST@ + PROBE_HINT@, png->0),
                ),
                Err(ProbeError::Image) => png is None,
                Err(ProbeError::Endpoint(error)) => png is Some && !local_endpoint(url)
                    && error.host@ == url_host(url),
            }
        }),
{
    match probe_image() {
        Some(png) => match caption_image(config, png.as_slice(), PROBE_HINT) {
            Ok(request) => Ok(request),
            Err(error) => Err(ProbeError::Endpoint(error)),
        },
        None => Err(ProbeError::Image),
    }
}

} // verus!

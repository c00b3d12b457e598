//! The gateway, chats, and measuring.

use blend::bench;
use blend::chat::{self, ChatJob, Engine, EngineEvent, Reply};
use blend::gateway::{self, Gateway};
use blend::memsum;
use blend::request::{ChatRequest, Message, Role, SamplingParams};
use blend::seq::SeqId;

fn workers(v: &[&str]) -> Vec<String> {
    v.iter().map(|s| s.to_string()).collect()
}

#[test]
fn workers_are_cleaned_up() {
    let g = Gateway::new(workers(&["http://a//", "", "/", "http://b"])).unwrap();
    assert_eq!(g.workers(), &workers(&["http://a", "http://b"]));
    match Gateway::new(workers(&["", "//"])) {
        Err(e) => assert_eq!(e, "至少需要一个 --worker"),
        Ok(_) => panic!("must be refused"),
    }
}

#[test]
fn descriptions_are_no_part_of_addresses() {
    let g = Gateway::new(workers(&["http://127.0.0.1:1940#tp=2,label=qwen-tp2"])).unwrap();
    let worker = g.pick(None, 0);
    assert_eq!(worker, "http://127.0.0.1:1940#tp=2,label=qwen-tp2");
    assert_eq!(gateway::worker_label(worker), worker);
    assert_eq!(gateway::target_url(worker, "/v1/models"), "http://127.0.0.1:1940/v1/models");
    let g = Gateway::new(workers(&["#tp=2", "http://a/#x#y/", "/#z"])).unwrap();
    assert_eq!(g.workers(), &workers(&["#tp=2", "http://a/#x#y", "/#z"]));
    assert_eq!(gateway::target_url(g.pick(None, 0), "/v1"), "/v1");
    assert_eq!(gateway::target_url(g.pick(None, 1), "/v1"), "http://a/v1");
}

#[test]
fn sessions_do_not_move_the_turn() {
    let g = Gateway::new(workers(&["a", "b", "c"])).unwrap();
    let mut turn: usize = 0;
    let mut picked = Vec::new();
    for session in [None, Some(&b"s"[..]), None, Some(&b"t"[..]), Some(&b"s"[..]), None, None] {
        if session.is_none() {
            picked.push(g.pick(session, turn));
        }
        turn = gateway::next_turn(session, turn);
    }
    assert_eq!(picked, vec!["a", "b", "c", "a"]);
    assert_eq!(turn, 4);
    assert_eq!(gateway::next_turn(None, usize::MAX), 0);
}

#[test]
fn only_answers_of_success_are_counted() {
    assert_eq!(bench::sample_of(200, 7, Ok(3)), Some((7, 3)));
    assert_eq!(bench::sample_of(299, 7, Ok(0)), Some((7, 0)));
    assert_eq!(bench::sample_of(199, 7, Ok(3)), None);
    assert_eq!(bench::sample_of(300, 7, Ok(3)), None);
    assert_eq!(bench::sample_of(200, 7, Err("bad".to_string())), None);
    let l = bench::summarize(&[bench::sample_of(200, 7, Ok(3)), bench::sample_of(500, 1, Ok(9))]);
    assert_eq!((l.ok, l.fail, l.tokens, l.p50_ns), (1, 1, 3, 7));
}

#[test]
fn sessions_stick_to_their_worker() {
    let g = Gateway::new(workers(&["a", "b", "c"])).unwrap();
    // FNV-1a of "s1" is 0x08a40607b5a85d1d
    let mut h: u64 = 0xcbf29ce484222325;
    for b in b"s1" {
        h ^= *b as u64;
        h = h.wrapping_mul(0x100000001b3);
    }
    let want = ["a", "b", "c"][(h % 3) as usize];
    for turn in 0..5 {
        assert_eq!(g.pick(Some(b"s1"), turn), want);
    }
    assert_eq!(g.pick(Some(b""), 0), ["a", "b", "c"][(0xcbf29ce484222325u64 % 3) as usize]);
}

#[test]
fn turns_go_round() {
    let g = Gateway::new(workers(&["a", "b", "c"])).unwrap();
    let picks: Vec<&str> = (4..10).map(|t| g.pick(None, t)).collect();
    assert_eq!(picks, vec!["b", "c", "a", "b", "c", "a"]);
}

#[test]
fn session_of_a_request() {
    assert_eq!(gateway::session_key(Some(b"x"), Some(b"y")), Some(&b"x"[..]));
    assert_eq!(gateway::session_key(None, Some(b"y z\t")), Some(&b"y z\t"[..]));
    assert_eq!(gateway::session_key(Some(b"\xff"), Some(b"y")), None);
    assert_eq!(gateway::session_key(None, None), None);
    assert_eq!(gateway::session_key(Some(b"\x7f"), None), None);
}

#[test]
fn headers_of_a_connection_are_not_passed_on() {
    for name in ["Host", "connection", "Keep-Alive", "proxy-connection", "TRANSFER-ENCODING", "upgrade", "te", "Trailer"] {
        assert!(gateway::skip_hop(name));
    }
    assert!(!gateway::skip_hop("content-type"));
    assert!(!gateway::skip_hop("hosts"));
    let h = |n: &str, v: &str| (n.to_string(), v.as_bytes().to_vec());
    let got = gateway::forward_headers(vec![h("a", "1"), h("te", "2"), h("b", "3"), h("a", "4")]);
    assert_eq!(got, vec![h("a", "1"), h("b", "3"), h("a", "4")]);
}

#[test]
fn answers_of_workers_are_passed_back() {
    assert_eq!(gateway::relay_status(404), 404);
    assert_eq!(gateway::relay_status(99), 502);
    assert_eq!(gateway::relay_status(1000), 502);
    assert_eq!(gateway::worker_label("http://a:1"), "http://a:1");
    assert_eq!(gateway::worker_label("http://é"), "http://é");
    assert_eq!(gateway::worker_label("a\tb"), "a\tb");
    assert_eq!(gateway::worker_label("a\u{7f}"), "ok");
    assert_eq!(gateway::worker_label("a\nb"), "ok");
    assert_eq!(gateway::target_url("http://a", "/v1?x=1"), "http://a/v1?x=1");
    assert_eq!(gateway::worker_error("w", "down"), "worker w: down");
    assert_eq!(gateway::BODY_LIMIT, 16 * 1024 * 1024);
}

fn request(contents: &[&str], sampling: Option<usize>, top: Option<usize>) -> ChatRequest {
    ChatRequest {
        model: "m".into(),
        messages: contents
            .iter()
            .map(|c| Message { role: Role::User, content: c.to_string() })
            .collect(),
        stream: false,
        sampling: SamplingParams { max_tokens: sampling },
        max_tokens: top,
    }
}

#[test]
fn token_limits() {
    assert_eq!(request(&[], Some(3), Some(5)).effective_max_tokens(64), 3);
    assert_eq!(request(&[], None, Some(5)).effective_max_tokens(64), 5);
    assert_eq!(request(&[], None, None).effective_max_tokens(64), 64);
    assert_eq!(SamplingParams::default().max_tokens, None);
}

#[test]
fn requests_become_jobs() {
    let job = chat::job_for(&request(&["hello  big", "", " world"], None, None)).unwrap();
    assert_eq!(job.prompt_words, vec!["hello", "big", "world"]);
    assert_eq!(job.max_tokens, 64);
    match chat::job_for(&request(&[" ", "\n"], None, None)) {
        Err(status) => assert_eq!(status, 400),
        Ok(_) => panic!("must be refused"),
    }
}

#[test]
fn engine_says_the_prompt_back() {
    let mut e = Engine::new();
    let job = ChatJob { prompt_words: vec!["a".into(), "b".into()], max_tokens: 3 };
    let first = Reply::collect(e.respond(&job));
    assert_eq!(first.content(), "a b [done]");
    assert_eq!(first.completion_tokens(), 3);
    let short = ChatJob { prompt_words: vec!["a".into(), "b".into()], max_tokens: 1 };
    let events = e.respond(&short);
    assert_eq!(events.len(), 2);
    for ev in &events {
        match ev {
            EngineEvent::Token { seq, text } => assert_eq!((*seq, text.as_str()), (SeqId(2), "a")),
            EngineEvent::Done { seq } => assert_eq!(*seq, SeqId(2)),
        }
    }
    let data: Vec<String> = events.into_iter().map(chat::stream_data).collect();
    assert_eq!(data, vec!["a", "[DONE]"]);
}

#[test]
fn replies_end_with_the_first_end() {
    let token = |t: &str| EngineEvent::Token { seq: SeqId(1), text: t.to_string() };
    let mut r = Reply::new();
    assert!(!r.take(token("x")));
    assert!(r.take(EngineEvent::Done { seq: SeqId(1) }));
    assert_eq!(r.content(), "x");
    let r = Reply::collect(vec![token("x"), EngineEvent::Done { seq: SeqId(1) }, token("y")]);
    assert_eq!(r.content(), "x");
}

#[test]
fn lists_of_numbers() {
    assert_eq!(bench::parse_list("1, 2,4 ,x,0,,+8"), vec![1, 2, 4, 8]);
    assert_eq!(bench::parse_list(""), Vec::<usize>::new());
}

#[test]
fn levels_are_summed_up() {
    let l = bench::summarize(&[Some((30, 5)), None, Some((10, 7)), Some((20, 0))]);
    assert_eq!((l.ok, l.fail, l.tokens), (3, 1, 12));
    assert_eq!((l.p50_ns, l.p99_ns), (20, 30));
    let none = bench::summarize(&[None]);
    assert_eq!((none.ok, none.fail, none.tokens, none.p50_ns, none.p99_ns), (0, 1, 0, 0, 0));
}

#[test]
fn percentiles_are_the_nearest_ranks() {
    for n in 1..400usize {
        let samples: Vec<bench::Sample> = (0..n as u64).rev().map(|t| Some((t, 0))).collect();
        let l = bench::summarize(&samples);
        let place = |q: f64| ((n as f64 - 1.0) * q).round() as u64;
        assert_eq!(l.p50_ns, place(0.50));
        assert_eq!(l.p99_ns, place(0.99));
    }
}

#[test]
fn reported_tokens() {
    let body = br#"{"usage":{"completion_tokens":17}}"#;
    assert_eq!(bench::completion_tokens(body), Ok(17));
    assert_eq!(bench::completion_tokens(b"{}"), Ok(0));
    assert_eq!(bench::completion_tokens(br#"{"usage":{"completion_tokens":-1}}"#), Ok(0));
    assert!(bench::completion_tokens(b"").is_err());
    let v: serde_json::Value = serde_json::from_str(r#"{"usage":{"completion_tokens":3}}"#).unwrap();
    assert_eq!(bench::tokens_in(&v), 3);
}

#[test]
fn streams_are_read() {
    let chunk = "data: {\"choices\":[{\"delta\":{\"content\":\"He\"}}]}\r\n\n: note\n  data:{\"choices\":[{\"delta\":{\"content\":\"y\"}}]}\ndata: {\"choices\":[]}\ndata: {bad\ndata: [DONE]\n";
    assert_eq!(bench::stream_texts(chunk), vec!["He", "y"]);
    let v: serde_json::Value =
        serde_json::from_str(r#"{"choices":{"0":{"delta":{"content":"x"}}}}"#).unwrap();
    assert_eq!(bench::delta_in(&v), None);
    let line: Vec<char> = "data:  x ".chars().collect();
    assert_eq!(bench::line_payload(&line), Some("x".to_string()));
}

#[test]
fn sessions_and_prompts_of_trials() {
    assert_eq!(bench::level_session(8, 3), "conc-8-3");
    assert_eq!(bench::turn_session(true, 4), "agent-sess-v23");
    assert_eq!(bench::turn_session(false, 4), "agent-sess-v23-turn-4");
    assert_eq!(bench::next_prompt(0), "Continue with point number 2.");
}

#[test]
fn home_is_filled_in() {
    assert_eq!(bench::expand_tilde("~/x/y", Some("/home/me")), "/home/me/x/y");
    assert_eq!(bench::expand_tilde("~x", Some("/home/me")), "~x");
    assert_eq!(bench::expand_tilde("~/x", None), "~/x");
    assert_eq!(bench::expand_tilde("/a", Some("/home/me")), "/a");
}

#[test]
fn parts_of_a_buffer_add_up() {
    let buf: Vec<u64> = (0..103u64).map(|i| i.wrapping_mul(0x9e3779b97f4a7c15)).collect();
    let want = buf.iter().fold(0u64, |a, b| a.wrapping_add(*b));
    for threads in [1, 2, 7, 103] {
        let parts = memsum::thread_parts(buf.len(), threads);
        let want_parts: Vec<usize> = buf.chunks(buf.len() / threads).map(|c| c.len()).collect();
        assert_eq!(parts.iter().map(|p| p.1 - p.0).collect::<Vec<_>>(), want_parts);
        let sums: Vec<u64> = parts.iter().map(|p| memsum::wrapping_sum(&buf[p.0..p.1])).collect();
        assert_eq!(memsum::wrapping_sum(&sums), want);
    }
}

#[test]
fn bytes_of_a_stream_are_read() {
    let chunk = "data: {\"choices\":[{\"delta\":{\"content\":\"é\"}}]}\n".as_bytes();
    assert_eq!(bench::chunk_texts(chunk), vec!["é"]);
    let mut broken = chunk.to_vec();
    broken.retain(|b| *b != 0xc3);
    assert_eq!(bench::chunk_texts(&broken), vec!["\u{fffd}"]);
    assert!(bench::chunk_texts(&[]).is_empty());
}

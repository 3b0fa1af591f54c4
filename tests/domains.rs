use obs_bot::common::{ConnectionDetails, Subscriber};
use obs_bot::events::{decimal, DomainError};
use obs_bot::help::HelpHandler;
use obs_bot::openqa::{QAKey, TestEvent};
use obs_bot::submitrequests::{RequestEvent, RequestKey};
use obs_bot::{build_res, leave, openqa, submitrequests};

fn details(buildprefix: &str) -> ConnectionDetails {
    ConnectionDetails {
        domain: "obs.example.org".to_string(),
        login: "user:pass".to_string(),
        buildprefix: buildprefix.to_string(),
        rabbitprefix: "rabbit".to_string(),
        rabbitscope: "example".to_string(),
    }
}

fn requests() -> Subscriber<RequestKey> {
    Subscriber::new(details("build"), Some("!".to_string()), "request".to_string())
}

fn tests_sub() -> Subscriber<QAKey> {
    Subscriber::new(details("openqa"), Some("!".to_string()), "tests".to_string())
}

fn request_event(number: i32) -> RequestEvent {
    RequestEvent {
        state: "new".to_string(),
        number,
        comment: None,
        comment_body: None,
        commenter: None,
    }
}

#[test]
fn scenario_request_comment_notifies_subscriber() {
    let mut sub = requests();
    let replies = sub.handle_message_helper("!https://build.obs.example.org/request/show/1234", "R1");
    assert_eq!(replies[0].clone().unwrap().plain, "Subscribing to 1234 on obs.example.org");
    let mut event = request_event(1234);
    event.commenter = Some("alice".to_string());
    event.comment_body = Some("looks good".to_string());
    let n = sub.delivery_wrapper("example.obs.request.comment", &event).unwrap().unwrap();
    assert_eq!(n.rooms, vec!["R1".to_string()]);
    for part in ["commented", "1234", "alice", "looks good"] {
        assert!(n.plain.contains(part));
    }
    assert_eq!(n.plain, "Request 1234 was commented. Status: new (alice: looks good)");
    assert_eq!(
        n.html,
        "<a href=https://build.obs.example.org/request/show/1234>Request 1234</a> was commented. Status <strong>new</strong> <br>alice: looks good"
    );
}

#[test]
fn request_change_kinds() {
    let mut sub = requests();
    sub.handle_message_helper("!obs.example.org/request/show/5", "R1");
    let mut event = request_event(5);
    event.comment = Some("please review".to_string());
    let n = sub.delivery_wrapper("example.obs.request.change", &event).unwrap().unwrap();
    assert_eq!(n.plain, "Request 5 was changed by admin. Status: new (please review)");
    let n = sub.delivery_wrapper("example.obs.request.state_change", &event).unwrap().unwrap();
    assert_eq!(n.plain, "Request 5 was changed. Status: new (please review)");
    let n = sub.delivery_wrapper("example.obs.request.delete", &request_event(5)).unwrap().unwrap();
    assert_eq!(n.plain, "Request 5 was deleted. Status: new ()");
    assert_eq!(
        n.html,
        "<a href=https://build.obs.example.org/request/show/5>Request 5</a> was deleted. Status <strong>new</strong> "
    );
    assert!(sub.delivery_wrapper("example.obs.request.create", &event).is_err());
    assert!(sub.delivery_wrapper("example.obs.request.comment", &request_event(6)).unwrap().is_none());
}

#[test]
fn test_results_render_with_reason() {
    let mut sub = tests_sub();
    assert_eq!(sub.get_base_url(), "https://openqa.obs.example.org/tests");
    let replies = sub.handle_message_helper("!https://openqa.obs.example.org/tests/4242#", "R1");
    assert_eq!(replies[0].clone().unwrap().plain, "Subscribing to 4242 on obs.example.org");
    let event = TestEvent {
        id: 4242,
        testname: "boot".to_string(),
        result: "failed".to_string(),
        reason: Some("timeout".to_string()),
    };
    let n = sub.delivery_wrapper("example.openqa.job.done", &event).unwrap().unwrap();
    assert_eq!(n.plain, "Test failed: boot (4242) (reason: timeout)");
    assert_eq!(
        n.html,
        "<strong>Test <u>failed</u>:</strong> Test boot (<a href=https://openqa.obs.example.org/tests/4242>4242</a>) (reason: timeout)"
    );
    let passed = TestEvent { result: "passed".to_string(), reason: None, ..event };
    let n = sub.delivery_wrapper("example.openqa.job.done", &passed).unwrap().unwrap();
    assert_eq!(n.plain, "Test passed: boot (4242)");
    assert_eq!(
        n.html,
        "<strong>Test passed:</strong> Test boot (<a href=https://openqa.obs.example.org/tests/4242>4242</a>)"
    );
    assert!(matches!(
        sub.delivery_wrapper("example.openqa.job.create", &passed),
        Err(DomainError::UnknownRoutingKey { .. })
    ));
}

#[test]
fn decimal_renders_numbers() {
    assert_eq!(decimal(0), "0");
    assert_eq!(decimal(7), "7");
    assert_eq!(decimal(1234), "1234");
    assert_eq!(decimal(-56), "-56");
    assert_eq!(decimal(i32::MAX), "2147483647");
    assert_eq!(decimal(i32::MIN), "-2147483648");
}

#[test]
fn malformed_payload_is_described() {
    let e = DomainError::MalformedPayload { reason: "missing field `state`".to_string() };
    assert_eq!(e.describe(), "Malformed payload: missing field `state`");
}

#[test]
fn help_entries_of_each_domain() {
    let b = build_res::help_str(Some("!"));
    assert_eq!(b[0], ("!OBS_PACKAGE_URL".to_string(), "Subscribe to a package. Get notification if build-status changes.".to_string()));
    assert_eq!(b[2].0, "!list packages");
    let s = submitrequests::help_str(None);
    assert_eq!(s[1].0, "unsub OBS_REQUEST_URL");
    let o = openqa::help_str(Some("bot: "));
    assert_eq!(o[2], ("bot: list tests".to_string(), "List all tests currently subscribed to.".to_string()));
    let l = leave::help_str(Some("!"));
    assert_eq!(
        l,
        vec![
            ("!leave".to_string(), "Leave the current room".to_string()),
            ("!shutdown".to_string(), "Shutdown the bot completely".to_string()),
        ]
    );
}

#[test]
fn help_command_lists_every_entry() {
    let h = HelpHandler { prefix: Some("!".to_string()) };
    let items = h.help_items();
    assert_eq!(items.len(), 12);
    assert_eq!(items[0], ("help".to_string(), "Print this help".to_string()));
    let reply = h.handle_message(Some("help")).unwrap();
    let mut plain = "Hi, I'm a friendly robot and provide these options:".to_string();
    let mut html = "<h3>Hi, I'm a friendly robot and provide these options:</h3>\n<table>".to_string();
    for (key, text) in &items {
        plain += &format!("\n{:<35} - {}", key, text);
        html += &format!("\n<tr> <td>{}</td> <td>{}</td></tr>", key, text);
    }
    html += "\n</table>";
    assert_eq!(reply.plain, plain);
    assert_eq!(reply.html, Some(html));
    assert!(reply.plain.contains("\nhelp                                - Print this help"));
}

#[test]
fn help_ignores_other_commands() {
    let h = HelpHandler { prefix: None };
    assert!(h.handle_message(Some("leave")).is_none());
    assert!(h.handle_message(None).is_none());
}

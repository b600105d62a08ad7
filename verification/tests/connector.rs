use pool::connector::{first_step, next_step, unescape, usable_peers, Announcement, Step, ANNOUNCE_INTERVAL};

fn record() -> Announcement {
    Announcement {
        name: "test".to_string(),
        ip: "0.0.0.0".to_string(),
        port: "8080".to_string(),
        path: "/test".to_string(),
    }
}

#[test]
fn script_names_the_node_and_carries_its_fields() {
    let name = "test";
    let ip = "0.0.0.0";
    let port = "8080";
    let path = "/test";
    let script = [
        &format!("$->$server_exists = inner root->web_server {name}<-name"),
        "$->$web_server = if $->$server_exists ?",
        &format!("$->$web_server->name = = {name} _"),
        &format!("$->$web_server->ip = = {ip} _"),
        &format!("$->$web_server->port = = {port} _"),
        &format!("$->$web_server->path = = {path} _"),
        "root->web_server += left $->$web_server $->$server_exists",
    ]
    .join("\n");
    assert_eq!(record().fallback_script(), script);
    assert_eq!(record().script(), script.replace("\n", "\\n"));
}

#[test]
fn primary_body_is_an_object_with_the_script_as_its_name() {
    let body = record().primary_body();
    assert_eq!(body, format!("{{\"{}\": null}}", record().script()));
    assert!(body.starts_with("{\"$->$server_exists = inner root->web_server test<-name\\n$->$web_server = if"));
    assert!(body.ends_with("$->$server_exists\": null}"));
}

#[test]
fn escaped_line_breaks_become_line_feeds() {
    assert_eq!(unescape(""), "");
    assert_eq!(unescape("a\\nb"), "a\nb");
    assert_eq!(unescape("\\n\\n"), "\n\n");
    assert_eq!(unescape("\\\\n"), "\\\n");
    assert_eq!(unescape("a\\"), "a\\");
    assert_eq!(unescape("a\\tb\nc"), "a\\tb\nc");
    for text in ["", "\\", "\\n", "n\\", "\\\\nn\\n", "x\\ny\\nz"] {
        assert_eq!(unescape(text), text.replace("\\n", "\n"));
    }
}

#[test]
fn cycle_without_peers_only_sleeps() {
    assert_eq!(first_step(0), Step::Sleep);
    assert_eq!(next_step(Step::Sleep, true, 0), Step::Sleep);
    assert_eq!(ANNOUNCE_INTERVAL, 10);
}

#[test]
fn cycle_in_which_everything_succeeds() {
    assert_eq!(first_step(2), Step::Primary { peer: 0 });
    assert_eq!(next_step(Step::Primary { peer: 0 }, true, 2), Step::Primary { peer: 1 });
    assert_eq!(next_step(Step::Primary { peer: 1 }, true, 2), Step::Sleep);
    assert_eq!(next_step(Step::Sleep, true, 2), Step::Primary { peer: 0 });
    assert_eq!(next_step(Step::Sleep, false, 2), Step::Primary { peer: 0 });
}

#[test]
fn failing_peer_does_not_hold_up_the_next() {
    let mut step = first_step(2);
    let mut tried = Vec::new();
    let mut steps = 0;
    while step != Step::Sleep {
        tried.push(step);
        let succeeded = !matches!(step, Step::Primary { peer: 0 } | Step::Fallback { peer: 0 });
        step = next_step(step, succeeded, 2);
        steps += 1;
        assert!(steps <= 4);
    }
    assert_eq!(
        tried,
        vec![Step::Primary { peer: 0 }, Step::Fallback { peer: 0 }, Step::Primary { peer: 1 }]
    );
}

#[test]
fn fallback_is_tried_once_whatever_it_gives() {
    assert_eq!(next_step(Step::Primary { peer: 3 }, false, 9), Step::Fallback { peer: 3 });
    assert_eq!(next_step(Step::Fallback { peer: 3 }, false, 9), Step::Primary { peer: 4 });
    assert_eq!(next_step(Step::Fallback { peer: 3 }, true, 9), Step::Primary { peer: 4 });
    assert_eq!(next_step(Step::Fallback { peer: 8 }, false, 9), Step::Sleep);
    assert_eq!(next_step(Step::Primary { peer: usize::MAX }, true, 9), Step::Sleep);
    assert_eq!(next_step(Step::Fallback { peer: usize::MAX }, true, usize::MAX), Step::Sleep);
}

#[test]
fn entries_that_are_no_text_are_passed_over() {
    let entries = vec![Some("http://a".to_string()), None, Some("http://b".to_string()), None];
    assert_eq!(usable_peers(&entries), vec!["http://a".to_string(), "http://b".to_string()]);
    assert_eq!(usable_peers(&Vec::new()), Vec::<String>::new());
}

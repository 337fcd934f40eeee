use presemble::client::{
    after_first_look, after_look, after_spawn, classification_answer, content_list_answer,
    dependents_answer, document_text_answer, exists_answer, fnv1a_hash, hex_text,
    link_options_answer, ping_answer, schema_list_answer, schema_source_answer, socket_files,
    socket_url, Launch, ATTEMPTS, PAUSE_MILLIS,
};
use presemble::protocol::{DependentFile, FileClassification, LinkOption, Response};

#[test]
fn socket_url_contains_ipc_prefix() {
    let url = socket_url("/tmp/mysite", None);
    assert!(url.starts_with("ipc://"), "expected ipc:// prefix, got: {url}");
}

#[test]
fn socket_url_names_the_site_by_its_hash() {
    let hash = fnv1a_hash(b"/tmp/mysite");
    assert_eq!(socket_url("/tmp/mysite", None), format!("ipc:///tmp/presemble/{hash:x}"));
    assert_eq!(
        socket_url("/tmp/mysite", Some("/run/user/1")),
        format!("ipc:///run/user/1/presemble/{hash:x}")
    );
    assert_ne!(socket_url("/tmp/a", None), socket_url("/tmp/b", None));
}

#[test]
fn hash_has_its_published_values() {
    assert_eq!(fnv1a_hash(b""), 0xcbf29ce484222325);
    assert_eq!(fnv1a_hash(b"a"), 0xaf63dc4c8601ec8c);
    assert_eq!(fnv1a_hash(b"foobar"), 0x85944171f73967e8);
}

#[test]
fn hexadecimal_numerals_have_no_leading_zeros() {
    assert_eq!(hex_text(0), "0");
    assert_eq!(hex_text(255), "ff");
    assert_eq!(hex_text(256), "100");
    assert_eq!(hex_text(u64::MAX), "ffffffffffffffff");
}

#[test]
fn socket_files_are_those_of_commands_and_events() {
    assert_eq!(
        socket_files("ipc:///tmp/presemble/ab"),
        Some(("/tmp/presemble/ab".to_string(), "/tmp/presemble/ab-pub".to_string()))
    );
    assert_eq!(socket_files("tcp://host"), None);
}

#[test]
fn a_conductor_that_answers_is_used() {
    assert_eq!(after_first_look(true, true), Launch::Ready);
    assert_eq!(after_first_look(true, false), Launch::Replace);
    assert_eq!(after_first_look(false, false), Launch::Spawn);
}

#[test]
fn a_client_looks_for_five_seconds() {
    assert_eq!(u64::from(ATTEMPTS) * PAUSE_MILLIS, 5000);
    let mut next = after_spawn();
    let mut looks = 0;
    while let Launch::Retry { left } = next {
        looks += 1;
        next = after_look(left, false, false);
    }
    assert_eq!(looks, 50);
    assert_eq!(
        next,
        Launch::Failed("conductor failed to start within 5 seconds".to_string())
    );
    assert_eq!(after_look(7, true, true), Launch::Ready);
    assert_eq!(after_look(7, true, false), Launch::Retry { left: 6 });
}

#[test]
fn answers_are_taken_apart() {
    assert_eq!(ping_answer(Response::Pong, "Pong"), Ok(()));
    assert_eq!(
        classification_answer(
            Response::FileClassification(FileClassification::Asset),
            ""
        ),
        Ok(FileClassification::Asset)
    );
    assert_eq!(schema_source_answer(Response::SchemaSource(None), ""), Ok(None));
    assert_eq!(
        document_text_answer(Response::DocumentText(Some("t".to_string())), ""),
        Ok(Some("t".to_string()))
    );
    assert_eq!(
        content_list_answer(Response::ContentList(vec!["a".to_string()]), ""),
        Ok(vec!["a".to_string()])
    );
    let pair = ("post".to_string(), "src".to_string());
    assert_eq!(
        schema_list_answer(Response::SchemaList(vec![pair.clone()]), ""),
        Ok(vec![pair])
    );
    let option = LinkOption {
        stem: "post".to_string(),
        slug: "a".to_string(),
        title: "A".to_string(),
        url: "/post/a".to_string(),
    };
    assert_eq!(
        link_options_answer(Response::LinkOptions(vec![option.clone()]), ""),
        Ok(vec![option])
    );
    assert_eq!(exists_answer(Response::Exists(true), ""), Ok(true));
    let file = DependentFile { path: "p".to_string(), kind: FileClassification::Unknown };
    assert_eq!(dependents_answer(Response::Dependents(vec![file]), "").unwrap().len(), 1);
}

#[test]
fn other_answers_are_refused() {
    assert_eq!(
        ping_answer(Response::Done, "Ok"),
        Err("unexpected response to ping: Ok".to_string())
    );
    assert_eq!(
        exists_answer(Response::Error("broken".to_string()), "Error(\"broken\")"),
        Err("broken".to_string())
    );
    assert_eq!(
        exists_answer(Response::Pong, "Pong"),
        Err("unexpected response: Pong".to_string())
    );
    assert_eq!(
        content_list_answer(Response::Pong, "Pong"),
        Err("unexpected response: Pong".to_string())
    );
}

use git_mob_tool::coauthor_repo::CoauthorRepo;
use git_mob_tool::coauthor_repo::InMemoryCoauthorRepo;
use git_mob_tool::commands::coauthor::Coauthor;

#[test]
fn test_delete_coauthor() {
    let key = "lm";
    let mut coauthor_repo = InMemoryCoauthorRepo::new();
    coauthor_repo.add(key, "Leo Messi <leo.messi@example.com>");

    let coauthor_cmd = Coauthor {
        delete: Some(key.to_owned()),
        add: None,
        list: false,
    };

    let mut out: Vec<String> = Vec::new();
    let mut err: Vec<String> = Vec::new();
    coauthor_cmd.handle(&mut coauthor_repo, &mut out, &mut err);

    assert!(coauthor_repo.get(key).is_none());
    assert!(out.is_empty());
    assert!(err.is_empty());
}

#[test]
fn test_error_message_shown_when_trying_to_delete_coauthor_with_non_existing_coauthor_key() {
    let key = "em";
    let mut coauthor_repo = InMemoryCoauthorRepo::new();

    let coauthor_cmd = Coauthor {
        delete: Some(key.to_owned()),
        add: None,
        list: false,
    };

    let mut out: Vec<String> = Vec::new();
    let mut err: Vec<String> = Vec::new();
    coauthor_cmd.handle(&mut coauthor_repo, &mut out, &mut err);

    assert_eq!(err, vec![format!("No co-author found with key: {key}")]);
    assert!(out.is_empty());
}

#[test]
fn test_add_coauthor() {
    let key = "lm";
    let name = "Leo Messi";
    let email = "leo.messi@example.com";

    let mut coauthor_repo = InMemoryCoauthorRepo::new();

    let coauthor_cmd = Coauthor {
        add: Some(vec![key.to_owned(), name.to_owned(), email.to_owned()]),
        delete: None,
        list: false,
    };

    let mut out: Vec<String> = Vec::new();
    let mut err: Vec<String> = Vec::new();
    coauthor_cmd.handle(&mut coauthor_repo, &mut out, &mut err);

    assert_eq!(out, vec![format!("{name} <{email}>")]);
    assert_eq!(coauthor_repo.get(key), Some(format!("{name} <{email}>")));
    assert!(err.is_empty());
}

#[test]
fn test_list_coauthors() {
    let coauthors = vec![
        "lm Leo Messi <leo.messi@example.com>".to_owned(),
        "em Emi Martinez <emi.martinez@example.com>".to_owned(),
    ];

    let mut coauthor_repo = InMemoryCoauthorRepo::new();
    coauthor_repo.add("lm", "Leo Messi <leo.messi@example.com>");
    coauthor_repo.add("em", "Emi Martinez <emi.martinez@example.com>");

    let coauthor_cmd = Coauthor {
        list: true,
        delete: None,
        add: None,
    };

    let mut out: Vec<String> = Vec::new();
    let mut err: Vec<String> = Vec::new();
    coauthor_cmd.handle(&mut coauthor_repo, &mut out, &mut err);

    assert_eq!(out, coauthors);
    assert!(err.is_empty());
}

#[test]
fn second_add_with_same_key_overwrites() {
    let mut coauthor_repo = InMemoryCoauthorRepo::new();
    coauthor_repo.add("other", "Other Person <other@example.com>");

    let first = Coauthor {
        add: Some(vec![
            "lm".to_owned(),
            "Leo Messi".to_owned(),
            "leo.messi@example.com".to_owned(),
        ]),
        delete: None,
        list: false,
    };
    let second = Coauthor {
        add: Some(vec![
            "lm".to_owned(),
            "Lionel Messi".to_owned(),
            "lionel@example.com".to_owned(),
        ]),
        delete: None,
        list: false,
    };

    let mut out: Vec<String> = Vec::new();
    let mut err: Vec<String> = Vec::new();
    first.handle(&mut coauthor_repo, &mut out, &mut err);
    second.handle(&mut coauthor_repo, &mut out, &mut err);

    assert_eq!(
        coauthor_repo.get("lm"),
        Some("Lionel Messi <lionel@example.com>".to_owned())
    );
    assert_eq!(
        coauthor_repo.get("other"),
        Some("Other Person <other@example.com>".to_owned())
    );
}

#[test]
fn list_on_empty_store_writes_nothing() {
    let mut coauthor_repo = InMemoryCoauthorRepo::new();

    let coauthor_cmd = Coauthor {
        list: true,
        delete: None,
        add: None,
    };

    let mut out: Vec<String> = Vec::new();
    let mut err: Vec<String> = Vec::new();
    coauthor_cmd.handle(&mut coauthor_repo, &mut out, &mut err);

    assert!(out.is_empty());
    assert!(err.is_empty());
}

#[test]
fn list_after_three_adds_has_one_line_per_key() {
    let mut coauthor_repo = InMemoryCoauthorRepo::new();
    coauthor_repo.add("a", "Ana <ana@example.com>");
    coauthor_repo.add("b", "Ben <ben@example.com>");
    coauthor_repo.add("c", "Cay <cay@example.com>");

    let coauthor_cmd = Coauthor {
        list: true,
        delete: None,
        add: None,
    };

    let mut out: Vec<String> = Vec::new();
    let mut err: Vec<String> = Vec::new();
    coauthor_cmd.handle(&mut coauthor_repo, &mut out, &mut err);

    assert_eq!(
        out,
        vec![
            "a Ana <ana@example.com>".to_owned(),
            "b Ben <ben@example.com>".to_owned(),
            "c Cay <cay@example.com>".to_owned(),
        ]
    );
}

#[test]
fn delete_then_get_then_second_delete_reports_not_found() {
    let key = "lm";
    let mut coauthor_repo = InMemoryCoauthorRepo::new();
    coauthor_repo.add(key, "Leo Messi <leo.messi@example.com>");

    let coauthor_cmd = Coauthor {
        delete: Some(key.to_owned()),
        add: None,
        list: false,
    };

    let mut out: Vec<String> = Vec::new();
    let mut err: Vec<String> = Vec::new();
    coauthor_cmd.handle(&mut coauthor_repo, &mut out, &mut err);
    assert!(err.is_empty());
    assert!(coauthor_repo.get(key).is_none());

    coauthor_cmd.handle(&mut coauthor_repo, &mut out, &mut err);
    assert_eq!(err, vec![format!("No co-author found with key: {key}")]);
}

#[test]
fn combined_delete_list_add_keeps_order_and_does_not_suppress_add() {
    let mut coauthor_repo = InMemoryCoauthorRepo::new();
    coauthor_repo.add("lm", "Leo Messi <leo.messi@example.com>");

    let coauthor_cmd = Coauthor {
        delete: Some("x".to_owned()),
        list: true,
        add: Some(vec![
            "x".to_owned(),
            "A".to_owned(),
            "a@example.com".to_owned(),
        ]),
    };

    let mut out: Vec<String> = Vec::new();
    let mut err: Vec<String> = Vec::new();
    coauthor_cmd.handle(&mut coauthor_repo, &mut out, &mut err);

    assert_eq!(err, vec!["No co-author found with key: x".to_owned()]);
    assert_eq!(
        out,
        vec![
            "lm Leo Messi <leo.messi@example.com>".to_owned(),
            "A <a@example.com>".to_owned(),
        ]
    );
    assert_eq!(coauthor_repo.get("x"), Some("A <a@example.com>".to_owned()));
}

#[test]
fn add_with_wrong_arity_does_nothing() {
    let mut coauthor_repo = InMemoryCoauthorRepo::new();

    let coauthor_cmd = Coauthor {
        add: Some(vec!["lm".to_owned(), "Leo Messi".to_owned()]),
        delete: None,
        list: false,
    };

    let mut out: Vec<String> = Vec::new();
    let mut err: Vec<String> = Vec::new();
    coauthor_cmd.handle(&mut coauthor_repo, &mut out, &mut err);

    assert!(out.is_empty());
    assert!(err.is_empty());
    assert!(coauthor_repo.get("lm").is_none());
}

#[test]
fn list_keys_only_renders_keys() {
    let coauthor_repo = {
        let mut r = InMemoryCoauthorRepo::new();
        r.add("lm", "Leo Messi <leo.messi@example.com>");
        r.add("em", "Emi Martinez <emi.martinez@example.com>");
        r
    };

    assert_eq!(
        coauthor_repo.list(false),
        vec!["lm".to_owned(), "em".to_owned()]
    );
}

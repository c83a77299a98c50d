//! Requests to create databases, and their answers.
use rw_core::create_database::{
    Answer, Catalog, CreateDatabase, Defaults, NewDatabase, Refusal, Session, UserInfo,
    handle_create_database,
};

fn user(id: u32, name: &str, is_super: bool, can_create_db: bool) -> UserInfo {
    UserInfo { id, name: name.to_string(), is_super, can_create_db }
}

fn catalog() -> Catalog {
    Catalog { users: vec![user(1, "root", true, false)], databases: vec!["dev".to_string()] }
}

fn session(user_name: &str, user_id: u32) -> Session {
    Session { user_name: user_name.to_string(), user_id }
}

fn defaults() -> Defaults {
    Defaults {
        notice_barrier_interval_ms: 300_000,
        notice_checkpoint_frequency: 60,
        resource_group: "default".to_string(),
    }
}

fn request(name: &str) -> CreateDatabase {
    CreateDatabase {
        database_name: Ok(name.to_string()),
        if_not_exist: false,
        owner: None,
        resource_group: None,
        barrier_interval_ms: None,
        checkpoint_frequency: None,
        resource_group_license: Ok(()),
    }
}

/// Decides on a request, and creates the database if the answer says so.
fn run(catalog: &mut Catalog, session: &Session, request: CreateDatabase) -> Result<Answer, Refusal> {
    let answer = handle_create_database(catalog, session, &defaults(), request)?;
    if let Some(database) = &answer.database {
        catalog.databases.push(database.name.clone());
    }
    Ok(answer)
}

#[test]
fn test_create_database() {
    let mut catalog = catalog();
    let root = session("root", 1);

    run(&mut catalog, &root, request("database")).unwrap();
    assert!(catalog.databases.contains(&"database".to_string()));

    catalog.users.push(user(2, "user", false, false));
    let res = run(&mut catalog, &session("user", 2), request("database2"));
    assert!(res.is_err());

    catalog.users.push(user(3, "user2", false, true));
    run(&mut catalog, &session("user2", 3), request("database2")).unwrap();
    assert!(catalog.databases.contains(&"database2".to_string()));
}

#[test]
fn plain_request_is_answered_in_full() {
    let answer = run(&mut catalog(), &session("root", 1), request("d")).unwrap();
    assert_eq!(
        answer,
        Answer {
            database: Some(NewDatabase {
                name: "d".to_string(),
                owner: 1,
                resource_group: "default".to_string(),
                barrier_interval_ms: None,
                checkpoint_frequency: None,
            }),
            notices: vec![],
        }
    );
}

#[test]
fn each_refusal_has_its_reason() {
    let mut catalog = catalog();
    catalog.users.push(user(2, "plain", false, false));
    let root = session("root", 1);

    let mut unresolved = request("d");
    unresolved.database_name = Err("bad name".to_string());
    assert_eq!(
        run(&mut catalog, &session("nobody", 9), unresolved),
        Err(Refusal::Unresolved("bad name".to_string()))
    );
    assert_eq!(
        run(&mut catalog, &session("nobody", 9), request("dev")),
        Err(Refusal::PermissionDenied("Session user is invalid".to_string()))
    );
    assert_eq!(
        run(&mut catalog, &session("plain", 2), request("dev")),
        Err(Refusal::PermissionDenied("permission denied to create database".to_string()))
    );
    let mut taken = request("dev");
    taken.owner = Some(Err("bad owner".to_string()));
    assert_eq!(run(&mut catalog, &root, taken), Err(Refusal::Duplicated("dev".to_string())));
    let mut owner = request("d");
    owner.owner = Some(Err("bad owner".to_string()));
    owner.resource_group = Some(Err("bad group".to_string()));
    assert_eq!(
        run(&mut catalog, &root, owner),
        Err(Refusal::Unresolved("bad owner".to_string()))
    );
    let mut stranger = request("d");
    stranger.owner = Some(Ok("stranger".to_string()));
    assert_eq!(
        run(&mut catalog, &root, stranger),
        Err(Refusal::UserNotFound("stranger".to_string()))
    );
    let mut group = request("d");
    group.resource_group = Some(Err("bad group".to_string()));
    group.resource_group_license = Err("no license".to_string());
    assert_eq!(
        run(&mut catalog, &root, group),
        Err(Refusal::Unresolved("bad group".to_string()))
    );
    let mut unlicensed = request("d");
    unlicensed.resource_group = Some(Ok(Some("fast".to_string())));
    unlicensed.resource_group_license = Err("no license".to_string());
    assert_eq!(
        run(&mut catalog, &root, unlicensed),
        Err(Refusal::Unlicensed("no license".to_string()))
    );
    assert_eq!(catalog.databases, vec!["dev".to_string()]);
}

#[test]
fn existing_database_can_be_skipped() {
    let mut catalog = catalog();
    let mut again = request("dev");
    again.if_not_exist = true;
    assert_eq!(
        run(&mut catalog, &session("root", 1), again),
        Ok(Answer {
            database: None,
            notices: vec!["database \"dev\" exists, skipping".to_string()],
        })
    );
    assert_eq!(catalog.databases, vec!["dev".to_string()]);
}

#[test]
fn owner_and_group_are_taken_over() {
    let mut catalog = catalog();
    catalog.users.push(user(8, "owner", false, false));
    let mut wanted = request("d");
    wanted.owner = Some(Ok("owner".to_string()));
    wanted.resource_group = Some(Ok(Some("fast".to_string())));
    let answer = run(&mut catalog, &session("root", 1), wanted).unwrap();
    let database = answer.database.unwrap();
    assert_eq!((database.owner, database.resource_group.as_str()), (8, "fast"));
    // A group without a name is the default one, and needs no license.
    let mut plain = request("e");
    plain.resource_group = Some(Ok(None));
    plain.resource_group_license = Err("no license".to_string());
    let answer = run(&mut catalog, &session("root", 1), plain).unwrap();
    assert_eq!(answer.database.unwrap().resource_group, "default");
}

#[test]
fn large_settings_bring_advice() {
    let mut catalog = catalog();
    let mut wanted = request("d");
    wanted.barrier_interval_ms = Some(300_000);
    wanted.checkpoint_frequency = Some(75);
    let answer = run(&mut catalog, &session("root", 1), wanted).unwrap();
    assert_eq!(
        answer.notices,
        vec![
            "Barrier interval is set to 300000 ms >= 300000 ms. This can hurt freshness and \
             potentially cause OOM."
                .to_string(),
            "Checkpoint frequency is set to 75 >= 60. This can hurt freshness and potentially \
             cause OOM."
                .to_string(),
        ]
    );
    let database = answer.database.unwrap();
    assert_eq!(database.barrier_interval_ms, Some(300_000));
    assert_eq!(database.checkpoint_frequency, Some(75));
    let mut small = request("e");
    small.barrier_interval_ms = Some(299_999);
    small.checkpoint_frequency = Some(59);
    assert_eq!(run(&mut catalog, &session("root", 1), small).unwrap().notices, Vec::<String>::new());
}

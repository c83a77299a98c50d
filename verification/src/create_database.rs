//! The handling of `CREATE DATABASE`: who may do it, under which name, and with what advice.
use vstd::prelude::*;

use crate::text::{append_decimal, decimal, law_written_numbers, writes_number};

verus! {

/// A user, as far as the creation of databases is concerned.
#[derive(Debug, PartialEq, Eq)]
pub struct UserInfo {
    pub id: u32,
    pub name: String,
    pub is_super: bool,
    pub can_create_db: bool,
}

/// The model of a [`UserInfo`].
pub struct UserView {
    pub id: u32,
    pub name: Seq<char>,
    pub is_super: bool,
    pub can_create_db: bool,
}

impl View for UserInfo {
    type V = UserView;

    open spec fn view(&self) -> UserView {
        UserView {
            id: self.id,
            name: self.name@,
            is_super: self.is_super,
            can_create_db: self.can_create_db,
        }
    }
}

/// The users and databases that there are.
#[derive(Debug, PartialEq, Eq)]
pub struct Catalog {
    pub users: Vec<UserInfo>,
    pub databases: Vec<String>,
}

/// Who asks.
#[derive(Debug, PartialEq, Eq)]
pub struct Session {
    pub user_name: String,
    pub user_id: u32,
}

/// From where on advice is given, and what stands where nothing is asked for.
#[derive(Debug, PartialEq, Eq)]
pub struct Defaults {
    pub notice_barrier_interval_ms: u32,
    pub notice_checkpoint_frequency: u64,
    pub resource_group: String,
}

/// What is asked for. The names have been resolved, or the resolution has failed with a message.
#[derive(Debug, PartialEq, Eq)]
pub struct CreateDatabase {
    pub database_name: Result<String, String>,
    pub if_not_exist: bool,
    pub owner: Option<Result<String, String>>,
    /// A resource group that is given may be the default one, for which there is no name.
    pub resource_group: Option<Result<Option<String>, String>>,
    pub barrier_interval_ms: Option<u32>,
    pub checkpoint_frequency: Option<u64>,
    /// Whether resource groups are available here.
    pub resource_group_license: Result<(), String>,
}

/// A database that is to be created.
#[derive(Debug, PartialEq, Eq)]
pub struct NewDatabase {
    pub name: String,
    pub owner: u32,
    pub resource_group: String,
    pub barrier_interval_ms: Option<u32>,
    pub checkpoint_frequency: Option<u64>,
}

/// The answer to a request. `database` is to be created, if there is one.
#[derive(Debug, PartialEq, Eq)]
pub struct Answer {
    pub database: Option<NewDatabase>,
    pub notices: Vec<String>,
}

/// Why a request is refused.
#[derive(Debug, PartialEq, Eq)]
pub enum Refusal {
    /// A name could not be resolved.
    Unresolved(String),
    PermissionDenied(String),
    /// There is a database of this name.
    Duplicated(String),
    /// There is no user of this name.
    UserNotFound(String),
    /// Resource groups are not available.
    Unlicensed(String),
}

/// The model of a [`NewDatabase`].
pub struct NewDatabaseView {
    pub name: Seq<char>,
    pub owner: u32,
    pub resource_group: Seq<char>,
    pub barrier_interval_ms: Option<u32>,
    pub checkpoint_frequency: Option<u64>,
}

impl View for NewDatabase {
    type V = NewDatabaseView;

    open spec fn view(&self) -> NewDatabaseView {
        NewDatabaseView {
            name: self.name@,
            owner: self.owner,
            resource_group: self.resource_group@,
            barrier_interval_ms: self.barrier_interval_ms,
            checkpoint_frequency: self.checkpoint_frequency,
        }
    }
}

/// The model of an [`Answer`].
pub struct AnswerView {
    pub database: Option<NewDatabaseView>,
    pub notices: Seq<Seq<char>>,
}

impl View for Answer {
    type V = AnswerView;

    open spec fn view(&self) -> AnswerView {
        AnswerView {
            database: match self.database {
                Some(d) => Some(d@),
                None => None,
            },
            notices: text_views(self.notices@),
        }
    }
}

/// The model of a [`Refusal`].
pub enum RefusalView {
    Unresolved(Seq<char>),
    PermissionDenied(Seq<char>),
    Duplicated(Seq<char>),
    UserNotFound(Seq<char>),
    Unlicensed(Seq<char>),
}

impl View for Refusal {
    type V = RefusalView;

    open spec fn view(&self) -> RefusalView {
        match self {
            Refusal::Unresolved(m) => RefusalView::Unresolved(m@),
            Refusal::PermissionDenied(m) => RefusalView::PermissionDenied(m@),
            Refusal::Duplicated(m) => RefusalView::Duplicated(m@),
            Refusal::UserNotFound(m) => RefusalView::UserNotFound(m@),
            Refusal::Unlicensed(m) => RefusalView::Unlicensed(m@),
        }
    }
}

pub open spec fn text_views(texts: Seq<String>) -> Seq<Seq<char>> {
    Seq::new(texts.len(), |i: int| texts[i]@)
}

/// The first user of this name.
pub open spec fn user_named(users: Seq<UserInfo>, name: Seq<char>) -> Option<UserView>
    decreases users.len(),
{
    if users.len() == 0 {
        None
    } else if users[0].name@ == name {
        Some(users[0]@)
    } else {
        user_named(users.drop_first(), name)
    }
}

/// There is a database of this name.
pub open spec fn database_exists(databases: Seq<String>, name: Seq<char>) -> bool {
    exists|i: int| 0 <= i < databases.len() && (#[trigger] databases[i])@ == name
}

/// The advice on a barrier interval.
pub open spec fn interval_notice(interval: Option<u32>, threshold: u32) -> Seq<Seq<char>> {
    match interval {
        Some(ms) if ms >= threshold => seq![
            "Barrier interval is set to "@ + decimal(ms as nat) + " ms >= "@ + decimal(
                threshold as nat,
            ) + " ms. This can hurt freshness and potentially cause OOM."@,
        ],
        _ => Seq::empty(),
    }
}

/// The advice on a checkpoint frequency.
pub open spec fn frequency_notice(frequency: Option<u64>, threshold: u64) -> Seq<Seq<char>> {
    match frequency {
        Some(f) if f >= threshold => seq![
            "Checkpoint frequency is set to "@ + decimal(f as nat) + " >= "@ + decimal(
                threshold as nat,
            ) + ". This can hurt freshness and potentially cause OOM."@,
        ],
        _ => Seq::empty(),
    }
}

/// The name of the resource group that is asked for, if it has one.
pub open spec fn group_name(group: Option<Result<Option<String>, String>>) -> Option<Seq<char>> {
    match group {
        Some(Ok(Some(name))) => Some(name@),
        _ => None,
    }
}

/// The user that the database will belong to, or why there is none.
pub open spec fn owner_of(catalog: Catalog, session: Session, owner: Option<Result<String, String>>) -> Result<
    u32,
    RefusalView,
> {
    match owner {
        None => Ok(session.user_id),
        Some(Err(message)) => Err(RefusalView::Unresolved(message@)),
        Some(Ok(name)) => match user_named(catalog.users@, name@) {
            Some(user) => Ok(user.id),
            None => Err(RefusalView::UserNotFound(name@)),
        },
    }
}

/// Why a request is refused, if it is: of several reasons the first one in this order.
pub open spec fn refusal(catalog: Catalog, session: Session, request: CreateDatabase) -> Option<
    RefusalView,
> {
    let user = user_named(catalog.users@, session.user_name@);
    if request.database_name is Err {
        Some(RefusalView::Unresolved(request.database_name->Err_0@))
    } else if user is None {
        Some(RefusalView::PermissionDenied("Session user is invalid"@))
    } else if !user->0.can_create_db && !user->0.is_super {
        Some(RefusalView::PermissionDenied("permission denied to create database"@))
    } else if database_exists(catalog.databases@, request.database_name->Ok_0@) {
        if request.if_not_exist {
            None
        } else {
            Some(RefusalView::Duplicated(request.database_name->Ok_0@))
        }
    } else if owner_of(catalog, session, request.owner) is Err {
        Some(owner_of(catalog, session, request.owner)->Err_0)
    } else if request.resource_group is Some && request.resource_group->0 is Err {
        Some(RefusalView::Unresolved(request.resource_group->0->Err_0@))
    } else if group_name(request.resource_group) is Some && request.resource_group_license is Err {
        Some(RefusalView::Unlicensed(request.resource_group_license->Err_0@))
    } else {
        None
    }
}

/// The answer to a request that is not refused.
pub open spec fn answer(
    catalog: Catalog,
    session: Session,
    defaults: Defaults,
    request: CreateDatabase,
) -> AnswerView {
    let name = request.database_name->Ok_0@;
    if database_exists(catalog.databases@, name) {
        AnswerView { database: None, notices: seq!["database \""@ + name + "\" exists, skipping"@] }
    } else {
        AnswerView {
            database: Some(
                NewDatabaseView {
                    name,
                    owner: owner_of(catalog, session, request.owner)->Ok_0,
                    resource_group: match group_name(request.resource_group) {
                        Some(group) => group,
                        None => defaults.resource_group@,
                    },
                    barrier_interval_ms: request.barrier_interval_ms,
                    checkpoint_frequency: request.checkpoint_frequency,
                },
            ),
            notices: interval_notice(
                request.barrier_interval_ms,
                defaults.notice_barrier_interval_ms,
            ) + frequency_notice(
                request.checkpoint_frequency,
                defaults.notice_checkpoint_frequency,
            ),
        }
    }
}

/// The user of this name.
pub fn get_user_by_name<'a>(users: &'a Vec<UserInfo>, name: &String) -> (r: Option<&'a UserInfo>)
    ensures
        match r {
            Some(user) => user_named(users@, name@) == Some(user@),
            None => user_named(users@, name@) is None,
        },
{
    let n: usize = users.len();
    let mut i: usize = 0;
    assert(users@.skip(0) =~= users@);
    while i < n
        invariant
            i <= n,
            n == users@.len(),
            user_named(users@, name@) == user_named(users@.skip(i as int), name@),
        decreases n - i,
    {
        proof {
            let rest = users@.skip(i as int);
            assert(rest[0] == users@[i as int]);
            assert(rest.drop_first() =~= users@.skip(i + 1));
        }
        if users[i].name == *name {
            return Some(&users[i]);
        }
        i = i + 1;
    }
    None
}

/// Whether there is a database of this name.
pub fn has_database(databases: &Vec<String>, name: &String) -> (r: bool)
    ensures
        r == database_exists(databases@, name@),
{
    let n: usize = databases.len();
    let mut i: usize = 0;
    while i < n
        invariant
            i <= n,
            n == databases@.len(),
            forall|j: int| 0 <= j < i ==> (#[trigger] databases@[j])@ != name@,
        decreases n - i,
    {
        if databases[i] == *name {
            return true;
        }
        i = i + 1;
    }
    false
}

fn push_interval_notice(notices: &mut Vec<String>, interval: Option<u32>, threshold: u32)
    ensures
        text_views(final(notices)@) == text_views(old(notices)@) + interval_notice(
            interval,
            threshold,
        ),
{
    let ghost before = notices@;
    match interval {
        Some(ms) => {
            if ms >= threshold {
                let mut text = "Barrier interval is set to ".to_owned();
                append_decimal(&mut text, ms as u64);
                text.append(" ms >= ");
                append_decimal(&mut text, threshold as u64);
                text.append(" ms. This can hurt freshness and potentially cause OOM.");
                notices.push(text);
                assert(text_views(notices@) =~= text_views(before) + interval_notice(
                    interval,
                    threshold,
                ));
            } else {
                assert(text_views(before) + interval_notice(interval, threshold) =~= text_views(
                    before,
                ));
            }
        },
        None => {
            assert(text_views(before) + interval_notice(interval, threshold) =~= text_views(before));
        },
    }
}

fn push_frequency_notice(notices: &mut Vec<String>, frequency: Option<u64>, threshold: u64)
    ensures
        text_views(final(notices)@) == text_views(old(notices)@) + frequency_notice(
            frequency,
            threshold,
        ),
{
    let ghost before = notices@;
    match frequency {
        Some(f) => {
            if f >= threshold {
                let mut text = "Checkpoint frequency is set to ".to_owned();
                append_decimal(&mut text, f);
                text.append(" >= ");
                append_decimal(&mut text, threshold);
                text.append(". This can hurt freshness and potentially cause OOM.");
                notices.push(text);
                assert(text_views(notices@) =~= text_views(before) + frequency_notice(
                    frequency,
                    threshold,
                ));
            } else {
                assert(text_views(before) + frequency_notice(frequency, threshold) =~= text_views(
                    before,
                ));
            }
        },
        None => {
            assert(text_views(before) + frequency_notice(frequency, threshold) =~= text_views(
                before,
            ));
        },
    }
}

/// Decides on a request to create a database.
pub fn handle_create_database(
    catalog: &Catalog,
    session: &Session,
    defaults: &Defaults,
    request: CreateDatabase,
) -> (r: Result<Answer, Refusal>)
    ensures
        match r {
            Err(e) => refusal(*catalog, *session, request) == Some(e@),
            Ok(a) => refusal(*catalog, *session, request) is None && a@ == answer(
                *catalog,
                *session,
                *defaults,
                request,
            ),
        },
        decided(*catalog, *session, *defaults, request, r),
{
    let database_name = match request.database_name {
        Ok(name) => name,
        Err(message) => {
            return Err(Refusal::Unresolved(message));
        },
    };
    match get_user_by_name(&catalog.users, &session.user_name) {
        Some(info) => {
            if !info.can_create_db && !info.is_super {
                return Err(
                    Refusal::PermissionDenied("permission denied to create database".to_owned()),
                );
            }
        },
        None => {
            return Err(Refusal::PermissionDenied("Session user is invalid".to_owned()));
        },
    }
    if has_database(&catalog.databases, &database_name) {
        if !request.if_not_exist {
            return Err(Refusal::Duplicated(database_name));
        }
        let mut text = "database \"".to_owned();
        text.append(database_name.as_str());
        text.append("\" exists, skipping");
        let mut notices: Vec<String> = Vec::new();
        notices.push(text);
        assert(text_views(notices@) =~= seq!["database \""@ + database_name@ + "\" exists, skipping"@]);
        return Ok(Answer { database: None, notices });
    }
    let owner: u32 = match request.owner {
        Some(Ok(name)) => match get_user_by_name(&catalog.users, &name) {
            Some(user) => user.id,
            None => {
                return Err(Refusal::UserNotFound(name));
            },
        },
        Some(Err(message)) => {
            return Err(Refusal::Unresolved(message));
        },
        None => session.user_id,
    };
    let resource_group = match request.resource_group {
        Some(Ok(Some(group))) => {
            if let Err(message) = request.resource_group_license {
                return Err(Refusal::Unlicensed(message));
            }
            group
        },
        Some(Err(message)) => {
            return Err(Refusal::Unresolved(message));
        },
        _ => defaults.resource_group.clone(),
    };
    let mut notices: Vec<String> = Vec::new();
    assert(text_views(notices@) =~= Seq::empty());
    push_interval_notice(
        &mut notices,
        request.barrier_interval_ms,
        defaults.notice_barrier_interval_ms,
    );
    push_frequency_notice(
        &mut notices,
        request.checkpoint_frequency,
        defaults.notice_checkpoint_frequency,
    );
    assert(text_views(notices@) =~= interval_notice(
        request.barrier_interval_ms,
        defaults.notice_barrier_interval_ms,
    ) + frequency_notice(request.checkpoint_frequency, defaults.notice_checkpoint_frequency));
    Ok(
        Answer {
            database: Some(
                NewDatabase {
                    name: database_name,
                    owner,
                    resource_group,
                    barrier_interval_ms: request.barrier_interval_ms,
                    checkpoint_frequency: request.checkpoint_frequency,
                },
            ),
            notices,
        },
    )
}

/// Without the right to create databases, or without an account, nobody creates one, whatever else
/// is asked for.
pub proof fn law_permission_needed(catalog: Catalog, session: Session, request: CreateDatabase)
    requires
        request.database_name is Ok,
        ({
            let user = user_named(catalog.users@, session.user_name@);
            user is None || !user->0.can_create_db && !user->0.is_super
        }),
    ensures
        refusal(catalog, session, request) matches Some(RefusalView::PermissionDenied(_)),
{
}

/// A database is created only under a name that is free, and exactly where the request is neither
/// refused nor about a database that exists.
pub proof fn law_created_once(
    catalog: Catalog,
    session: Session,
    defaults: Defaults,
    request: CreateDatabase,
)
    requires
        refusal(catalog, session, request) is None,
    ensures
        ({
            let a = answer(catalog, session, defaults, request);
            &&& a.database is Some <==> !database_exists(
                catalog.databases@,
                request.database_name->Ok_0@,
            )
            &&& a.database is Some ==> a.database->0.name == request.database_name->Ok_0@
            &&& a.database is None ==> request.if_not_exist
        }),
{
}

/// Of the users of a name the first one counts, and there is none only where nobody has the name.
pub proof fn law_user_by_name(users: Seq<UserInfo>, name: Seq<char>)
    ensures
        match user_named(users, name) {
            Some(user) => exists|i: int|
                0 <= i < users.len() && #[trigger] is_first_named(users, name, i) && user.id
                    == users[i].id && user.is_super == users[i].is_super && user.can_create_db
                    == users[i].can_create_db,
            None => forall|i: int| 0 <= i < users.len() ==> (#[trigger] users[i]).name@ != name,
        },
    decreases users.len(),
{
    if users.len() > 0 {
        if users[0].name@ == name {
            assert(is_first_named(users, name, 0));
        } else {
            let rest = users.drop_first();
            law_user_by_name(rest, name);
            match user_named(rest, name) {
                Some(user) => {
                    let j = choose|j: int|
                        0 <= j < rest.len() && #[trigger] is_first_named(rest, name, j) && user.id
                            == rest[j].id && user.is_super == rest[j].is_super
                            && user.can_create_db == rest[j].can_create_db;
                    assert(users[j + 1] == rest[j]);
                    assert forall|k: int| 0 <= k < j + 1 implies (#[trigger] users[k]).name@ != name by {
                        if k > 0 {
                            assert(users[k] == rest[k - 1]);
                        }
                    }
                    assert(is_first_named(users, name, j + 1));
                },
                None => {
                    assert forall|i: int| 0 <= i < users.len() implies (
                    #[trigger] users[i]).name@ != name by {
                        if i > 0 {
                            assert(users[i] == rest[i - 1]);
                        }
                    }
                },
            }
        }
    }
}

/// The user at `i` has this name, and none before it has.
pub open spec fn is_first_named(users: Seq<UserInfo>, name: Seq<char>, i: int) -> bool {
    &&& users[i].name@ == name
    &&& forall|j: int| 0 <= j < i ==> (#[trigger] users[j]).name@ != name
}

/// `r` is what a request comes to.
pub open spec fn decided(
    catalog: Catalog,
    session: Session,
    defaults: Defaults,
    request: CreateDatabase,
    r: Result<Answer, Refusal>,
) -> bool {
    match r {
        Err(e) => refusal(catalog, session, request) == Some(e@),
        Ok(a) => refusal(catalog, session, request) is None && a@ == answer(
            catalog,
            session,
            defaults,
            request,
        ),
    }
}

/// A database that is created belongs to the user of the session where the request names no owner;
/// else to the user of that name.
pub proof fn law_owner_of_database(
    catalog: Catalog,
    session: Session,
    defaults: Defaults,
    request: CreateDatabase,
    r: Result<Answer, Refusal>,
)
    requires
        decided(catalog, session, defaults, request, r),
        r is Ok,
        r->Ok_0.database is Some,
    ensures
        request.owner is None ==> r->Ok_0.database->0.owner == session.user_id,
        request.owner matches Some(named) ==> named is Ok && exists|i: int|
            0 <= i < catalog.users@.len() && #[trigger] is_first_named(
                catalog.users@,
                named->Ok_0@,
                i,
            ) && r->Ok_0.database->0.owner == catalog.users@[i].id,
{
    match request.owner {
        Some(Ok(name)) => law_user_by_name(catalog.users@, name@),
        _ => {},
    }
}

/// A database that is created has the name that was asked for, which no database has; the settings
/// that were asked for; and the resource group that was asked for, or else the default one. A resource
/// group with a name is to be had only with a license.
pub proof fn law_created_as_asked(
    catalog: Catalog,
    session: Session,
    defaults: Defaults,
    request: CreateDatabase,
    r: Result<Answer, Refusal>,
)
    requires
        decided(catalog, session, defaults, request, r),
        r is Ok,
        r->Ok_0.database is Some,
    ensures
        request.database_name is Ok,
        ({
            let created = r->Ok_0.database->0;
            &&& created.name@ == request.database_name->Ok_0@
            &&& forall|i: int|
                0 <= i < catalog.databases@.len() ==> (#[trigger] catalog.databases@[i])@
                    != created.name@
            &&& created.barrier_interval_ms == request.barrier_interval_ms
            &&& created.checkpoint_frequency == request.checkpoint_frequency
            &&& match request.resource_group {
                None => created.resource_group@ == defaults.resource_group@,
                Some(Ok(None)) => created.resource_group@ == defaults.resource_group@,
                Some(Ok(Some(group))) => created.resource_group@ == group@
                    && request.resource_group_license is Ok,
                Some(Err(_)) => false,
            }
        }),
{
}

/// Whatever is answered but a failure to resolve the name and a lack of permission, the user of the
/// session has an account that may create databases, or is a superuser.
pub proof fn law_only_with_permission(
    catalog: Catalog,
    session: Session,
    defaults: Defaults,
    request: CreateDatabase,
    r: Result<Answer, Refusal>,
)
    requires
        decided(catalog, session, defaults, request, r),
        request.database_name is Ok,
    ensures
        !(r is Err && r->Err_0 is PermissionDenied) <==> exists|i: int|
            0 <= i < catalog.users@.len() && #[trigger] is_first_named(
                catalog.users@,
                session.user_name@,
                i,
            ) && (catalog.users@[i].can_create_db || catalog.users@[i].is_super),
        r is Err && r->Err_0 is PermissionDenied ==> r->Err_0->PermissionDenied_0@ == (if exists|
            i: int,
        |
            0 <= i < catalog.users@.len() && (#[trigger] catalog.users@[i]).name@
                == session.user_name@ {
            "permission denied to create database"@
        } else {
            "Session user is invalid"@
        }),
{
    law_user_by_name(catalog.users@, session.user_name@);
    let users = catalog.users@;
    let name = session.user_name@;
    if user_named(users, name) is Some {
        let i = choose|i: int| 0 <= i < users.len() && #[trigger] is_first_named(users, name, i);
        assert forall|j: int| 0 <= j < users.len() && #[trigger] is_first_named(users, name, j) implies j
            == i by {
            assert(users[i].name@ == name && users[j].name@ == name);
        }
    }
}

/// Where a request that may be made is about a database that exists, it is skipped with a notice that
/// names the database, if it allows for that, and else refused as a duplicate; where the database does
/// not exist, neither happens.
pub proof fn law_existing_database(
    catalog: Catalog,
    session: Session,
    defaults: Defaults,
    request: CreateDatabase,
    r: Result<Answer, Refusal>,
    name: String,
)
    requires
        decided(catalog, session, defaults, request, r),
        request.database_name == Ok::<String, String>(name),
        !(r is Err && r->Err_0 is PermissionDenied),
    ensures
        (exists|i: int|
            0 <= i < catalog.databases@.len() && (#[trigger] catalog.databases@[i])@ == name@)
            ==> if request.if_not_exist {
            &&& r is Ok
            &&& r->Ok_0.database is None
            &&& r->Ok_0.notices@.len() == 1
            &&& r->Ok_0.notices@[0]@ == "database \""@ + name@ + "\" exists, skipping"@
        } else {
            r is Err && r->Err_0 is Duplicated && r->Err_0->Duplicated_0@ == name@
        },
        !(exists|i: int|
            0 <= i < catalog.databases@.len() && (#[trigger] catalog.databases@[i])@ == name@)
            ==> !(r is Err && r->Err_0 is Duplicated) && (r is Ok ==> r->Ok_0.database is Some),
{
    if r is Ok {
        let views = text_views(r->Ok_0.notices@);
        assert(r->Ok_0@.notices == views);
        if r->Ok_0.notices@.len() > 0 {
            assert(views[0] == r->Ok_0.notices@[0]@);
        }
    }
}

/// A request that may be made, about a database that does not exist, is refused exactly where its
/// owner or its resource group cannot be resolved, where nobody has the name of the owner, or where a
/// resource group with a name is asked for without a license; and each refusal says which.
pub proof fn law_refused_for_a_reason(
    catalog: Catalog,
    session: Session,
    defaults: Defaults,
    request: CreateDatabase,
    r: Result<Answer, Refusal>,
)
    requires
        decided(catalog, session, defaults, request, r),
        !(r is Err && r->Err_0 is PermissionDenied),
        !(r is Err && r->Err_0 is Duplicated),
        r is Ok ==> r->Ok_0.database is Some,
    ensures
        request.database_name matches Err(m) ==> r is Err && r->Err_0 is Unresolved
            && r->Err_0->Unresolved_0@ == m@,
        request.database_name is Ok ==> match request.owner {
            Some(Err(m)) => r is Err && r->Err_0 is Unresolved && r->Err_0->Unresolved_0@ == m@,
            Some(Ok(owner)) if forall|i: int|
                0 <= i < catalog.users@.len() ==> (#[trigger] catalog.users@[i]).name@
                    != owner@ => r is Err && r->Err_0 is UserNotFound && r->Err_0->UserNotFound_0@
                == owner@,
            _ => match request.resource_group {
                Some(Err(m)) => r is Err && r->Err_0 is Unresolved && r->Err_0->Unresolved_0@ == m@,
                Some(Ok(Some(_))) => match request.resource_group_license {
                    Err(m) => r is Err && r->Err_0 is Unlicensed && r->Err_0->Unlicensed_0@ == m@,
                    Ok(_) => r is Ok,
                },
                _ => r is Ok,
            },
        },
{
    match request.owner {
        Some(Ok(name)) => {
            law_user_by_name(catalog.users@, name@);
        },
        _ => {},
    }
}

/// Advice on a created database comes exactly where a setting reaches its threshold, first on the
/// barrier interval, then on the checkpoint frequency, and tells the setting and the threshold.
pub proof fn law_advice(
    catalog: Catalog,
    session: Session,
    defaults: Defaults,
    request: CreateDatabase,
    r: Result<Answer, Refusal>,
)
    requires
        decided(catalog, session, defaults, request, r),
        r is Ok,
        r->Ok_0.database is Some,
    ensures
        ({
            let notices = r->Ok_0.notices@;
            let slow = request.barrier_interval_ms is Some && request.barrier_interval_ms->0
                >= defaults.notice_barrier_interval_ms;
            let rare = request.checkpoint_frequency is Some && request.checkpoint_frequency->0
                >= defaults.notice_checkpoint_frequency;
            &&& notices.len() == (if slow { 1int } else { 0 }) + (if rare { 1int } else { 0 })
            &&& slow ==> exists|set: Seq<char>, threshold: Seq<char>|
                {
                    &&& #[trigger] writes_number(set, request.barrier_interval_ms->0 as nat, 10)
                    &&& #[trigger] writes_number(
                        threshold,
                        defaults.notice_barrier_interval_ms as nat,
                        10,
                    )
                    &&& notices[0]@ == "Barrier interval is set to "@ + set + " ms >= "@ + threshold
                        + " ms. This can hurt freshness and potentially cause OOM."@
                }
            &&& rare ==> exists|set: Seq<char>, threshold: Seq<char>|
                {
                    &&& #[trigger] writes_number(set, request.checkpoint_frequency->0 as nat, 10)
                    &&& #[trigger] writes_number(
                        threshold,
                        defaults.notice_checkpoint_frequency as nat,
                        10,
                    )
                    &&& notices.last()@ == "Checkpoint frequency is set to "@ + set + " >= "@
                        + threshold + ". This can hurt freshness and potentially cause OOM."@
                }
        }),
{
    let notices = r->Ok_0.notices@;
    let views = text_views(notices);
    assert(r->Ok_0@.notices == views);
    assert(views.len() == notices.len());
    if notices.len() > 0 {
        assert(views[0] == notices[0]@);
        assert(views.last() == notices.last()@);
    }
    law_written_numbers(defaults.notice_barrier_interval_ms as nat);
    law_written_numbers(defaults.notice_checkpoint_frequency as nat);
    match request.barrier_interval_ms {
        Some(ms) => law_written_numbers(ms as nat),
        None => {},
    }
    match request.checkpoint_frequency {
        Some(f) => law_written_numbers(f as nat),
        None => {},
    }
}

} // verus!

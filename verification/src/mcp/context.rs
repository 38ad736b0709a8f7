//! What every tool of this surface needs before it can do anything: the
//! namespace, the table, the schema a row is written through, and permission to
//! write at all.
//!
//! It is one module rather than a helper per tool because these are the four
//! answers a caller has to be able to act on, and a tool which phrases one of
//! them differently is a tool the model learns a different lesson from.

use crate::app::{namespace_name, resolve_name, window_left, AppContext, DbNamespace, DbTable};
use crate::db::{has_schema, schemas_in_order, DateTimeAsMicroseconds, EntitySchema};
use crate::names::Named;
use crate::text::{append_decimal, decimal, same_text};
use vstd::prelude::*;

verus! {

/// What a caller hears while the tables are still read off the disk.
pub open spec fn still_loading() -> Seq<char> {
    "The server is still loading its tables from disk. Try again in a moment."@
}

/// Refuses while the server is still reading its tables off the disk.
///
/// A table which is half loaded answers "no rows", and "no rows" is an answer a
/// caller acts on.
pub fn check_if_initialized<P, A>(app: &AppContext<P, A>) -> (r: Result<(), String>)
    ensures
        r is Ok <==> app.initialized,
        r matches Err(err) ==> err@ == still_loading(),
{
    if app.initialized {
        return Ok(());
    }
    Err("The server is still loading its tables from disk. Try again in a moment.".to_owned())
}

/// The name a caller gave, if one was given.
pub open spec fn given_name(name: Option<&str>) -> Seq<char> {
    match name {
        Some(name) => name@,
        None => Seq::empty(),
    }
}

/// The namespace a caller means.
pub open spec fn meant_namespace(name: Option<&str>) -> Seq<char> {
    namespace_name(given_name(name))
}

/// Whether there is something of that name among some.
pub open spec fn has_name<T: Named>(items: Seq<T>, name: Seq<char>) -> bool {
    exists|i: int| 0 <= i < items.len() && (#[trigger] items[i]).called() == name
}

/// Where the first thing of that name stands.
fn find_name<T: Named>(items: &Vec<T>, name: &str) -> (r: Option<usize>)
    ensures
        r is Some <==> has_name(items@, name@),
        r matches Some(i) ==> i < items@.len() && items@[i as int].called() == name@,
{
    for i in 0..items.len()
        invariant
            forall|k: int| 0 <= k < i ==> (#[trigger] items@[k]).called() != name@,
    {
        if same_text(items[i].get_name(), name) {
            assert(items@[i as int].called() == name@);
            return Some(i);
        }
    }
    None
}

/// What a caller hears who names a namespace which is not there.
pub open spec fn no_namespace(name: Seq<char>) -> Seq<char> {
    "There is no namespace '"@ + name + "'. Call get_namespaces to see which there are."@
}

/// Why a namespace is not looked into, if it is not.
pub open spec fn namespace_refusal<P, A>(app: AppContext<P, A>, name: Option<&str>) -> Option<
    Seq<char>,
> {
    if !app.initialized {
        Some(still_loading())
    } else if !has_name(app.namespaces@, meant_namespace(name)) {
        Some(no_namespace(meant_namespace(name)))
    } else {
        None
    }
}

/// Whether the answer is the refusal, or an answer where there is none.
pub open spec fn answers<T>(r: Result<T, String>, refusal: Option<Seq<char>>) -> bool {
    match refusal {
        Some(text) => r matches Err(err) && err@ == text,
        None => r is Ok,
    }
}

fn name_or_nothing<'a>(name: Option<&'a str>) -> (r: &'a str)
    ensures
        r@ == given_name(name),
{
    match name {
        Some(name) => name,
        None => {
            proof {
                reveal_strlit("");
                assert(""@ =~= Seq::<char>::empty());
            }
            ""
        },
    }
}

/// The namespace a call names, **without** creating it.
///
/// Reading a namespace nobody has written to is a mistake worth hearing about,
/// and creating one as a side effect would leave a folder on disk behind every
/// typo. The single exception is the destination of a table move - bringing the
/// named thing into existence is that call's whole job.
pub fn get_namespace<'a, P, A>(app: &'a AppContext<P, A>, name: Option<&str>) -> (r: Result<
    &'a DbNamespace,
    String,
>)
    ensures
        answers(r, namespace_refusal(*app, name)),
        r matches Ok(namespace) ==> app.namespaces@.contains(*namespace) && namespace.name@
            == meant_namespace(name),
{
    match check_if_initialized(app) {
        Ok(_) => {},
        Err(err) => {
            return Err(err);
        },
    }
    let name = resolve_name(name_or_nothing(name));
    match find_name(&app.namespaces, name) {
        Some(i) => Ok(&app.namespaces[i]),
        None => {
            let mut err = "There is no namespace '".to_owned();
            err.append(name);
            err.append("'. Call get_namespaces to see which there are.");
            Err(err)
        },
    }
}

/// What a caller hears who names a table which is not there. `missing_table` is
/// what the table registry itself says of that.
pub open spec fn no_table(missing_table: Seq<char>) -> Seq<char> {
    missing_table + ". Call get_list_of_tables to see which tables the namespace has."@
}

/// The table a call names.
pub fn get_table<'a>(
    db_namespace: &'a DbNamespace,
    table_name: &str,
    missing_table: &str,
) -> (r: Result<&'a DbTable, String>)
    ensures
        r is Ok <==> has_name(db_namespace.tables@, table_name@),
        r matches Ok(table) ==> db_namespace.tables@.contains(*table) && table.name@ == table_name@,
        r matches Err(err) ==> err@ == no_table(missing_table@),
{
    match find_name(&db_namespace.tables, table_name) {
        Some(i) => Ok(&db_namespace.tables[i]),
        None => {
            let mut err = missing_table.to_owned();
            err.append(". Call get_list_of_tables to see which tables the namespace has.");
            Err(err)
        },
    }
}

/// What a caller hears while the write tools are shut.
pub open spec fn writes_are_shut() -> Seq<char> {
    "MCP write operations are currently SHUT. Ask the user to open them - `POST /api/Mcp/Writes?enabled=true` on this server's HTTP port, which opens them for 10 minutes - and wait for them to confirm. Do not retry until they do. See prompt 'mcp_writes_enable_policy'."@
}

/// The lock on every write tool.
///
/// It is shut by default and there is no key to hand the model: a person opens
/// it with `POST /api/Mcp/Writes?enabled=true`, which is not one of the tools
/// registered here and therefore not something the model can call. Ten minutes
/// later it shuts itself.
pub fn ensure_writes_are_open<P, A>(app: &AppContext<P, A>, now: DateTimeAsMicroseconds) -> (r:
    Result<(), String>)
    ensures
        r is Ok <==> window_left(app.mcp_writes_opened, now) > 0,
        r matches Err(err) ==> err@ == writes_are_shut(),
{
    if app.mcp_writes_are_open(now) {
        return Ok(());
    }
    Err(
        "MCP write operations are currently SHUT. Ask the user to open them - `POST /api/Mcp/Writes?enabled=true` on this server's HTTP port, which opens them for 10 minutes - and wait for them to confirm. Do not retry until they do. See prompt 'mcp_writes_enable_policy'.".to_owned(),
    )
}

/// Ids in a row, as they are listed to a caller.
pub open spec fn id_list(schemas: Seq<EntitySchema>) -> Seq<char>
    decreases schemas.len(),
{
    if schemas.len() == 0 {
        Seq::empty()
    } else if schemas.len() == 1 {
        decimal(schemas[0].id as nat)
    } else {
        id_list(schemas.drop_last()) + ", "@ + decimal(schemas.last().id as nat)
    }
}

/// The ids of some schemas, as they are listed to a caller.
pub open spec fn listed_ids(schemas: Seq<EntitySchema>) -> Seq<char> {
    if schemas.len() == 0 {
        "none"@
    } else {
        id_list(schemas)
    }
}

/// The ids of the schemas, which are in the order of their ids already.
fn list_ids(schemas: &Vec<EntitySchema>) -> (r: String)
    ensures
        r@ == listed_ids(schemas@),
{
    if schemas.len() == 0 {
        return "none".to_owned();
    }
    let mut r = String::new();
    proof {
        assert(schemas@.take(0) =~= Seq::<EntitySchema>::empty());
        assert(r@ =~= id_list(schemas@.take(0)));
    }
    for i in 0..schemas.len()
        invariant
            r@ == id_list(schemas@.take(i as int)),
    {
        if i > 0 {
            r.append(", ");
        }
        append_decimal(&mut r, schemas[i].id as u128);
        proof {
            let so_far = schemas@.take(i + 1);
            assert(so_far.drop_last() =~= schemas@.take(i as int));
            assert(so_far.last() == schemas@[i as int]);
            assert(so_far[0] == schemas@[0]);
            assert(r@ =~= id_list(so_far));
        }
    }
    assert(schemas@.take(schemas@.len() as int) =~= schemas@);
    r
}

/// What a caller hears who names a schema the table does not have.
pub open spec fn no_schema(table: DbTable, schema_id: u64) -> Seq<char> {
    "Table '"@ + table.name@ + "' has no schema "@ + decimal(schema_id as nat) + ". It has: "@
        + listed_ids(table.attributes.schemas@)
}

/// What a caller hears of a table nobody has written to.
pub open spec fn never_written(table: DbTable) -> Seq<char> {
    "Table '"@ + table.name@
        + "' has never been written to, so this server does not know the shape of its rows and can not turn JSON into one. The service which owns this entity has to write a row first - the shape travels with the write."@
}

/// What a caller hears who has to say which schema is meant.
pub open spec fn which_schema(table: DbTable) -> Seq<char> {
    "Table '"@ + table.name@
        + "' holds rows of more than one entity version. Name the one to write through in `schema_id`: "@
        + listed_ids(table.attributes.schemas@)
}

/// Why no schema is picked, if none is.
pub open spec fn schema_refusal(table: DbTable, schema_id: Option<u64>) -> Option<Seq<char>> {
    let schemas = table.attributes.schemas@;
    match schema_id {
        Some(id) => if has_schema(schemas, id) {
            None
        } else {
            Some(no_schema(table, id))
        },
        None => if schemas.len() == 0 {
            Some(never_written(table))
        } else if schemas.len() > 1 {
            Some(which_schema(table))
        } else {
            None
        },
    }
}

/// The schema a row handed to this surface as JSON is written through.
///
/// Nothing here registers a schema. A schema arrives with the entity on the
/// gRPC write path, under an id its client folded out of its own type, and the
/// table refuses a second shape under an id it already has - so a shape typed at
/// a keyboard has no business being the first thing a table learns. What this
/// surface can do is write **through a shape the table already knows**, which is
/// also what makes the rows it writes readable by everyone else.
pub fn pick_schema<'a>(db_table: &'a DbTable, schema_id: Option<u64>) -> (r: Result<
    &'a EntitySchema,
    String,
>)
    requires
        schemas_in_order(db_table.attributes.schemas@),
    ensures
        answers(r, schema_refusal(*db_table, schema_id)),
        r matches Ok(schema) ==> db_table.attributes.schemas@.contains(*schema),
        r matches Ok(schema) ==> (schema_id matches Some(id) ==> schema.id == id),
{
    let schemas = &db_table.attributes.schemas;
    if let Some(wanted) = schema_id {
        for i in 0..schemas.len()
            invariant
                schemas@ == db_table.attributes.schemas@,
                schema_id == Some(wanted),
                forall|k: int| 0 <= k < i ==> (#[trigger] schemas@[k]).id != wanted,
        {
            if schemas[i].id == wanted {
                assert(schemas@[i as int].id == wanted);
                return Ok(&schemas[i]);
            }
        }
        let mut err = "Table '".to_owned();
        err.append(db_table.name.as_str());
        err.append("' has no schema ");
        append_decimal(&mut err, wanted as u128);
        err.append(". It has: ");
        err.append(list_ids(schemas).as_str());
        assert(err@ =~= no_schema(*db_table, wanted));
        return Err(err);
    }
    if schemas.len() == 0 {
        let mut err = "Table '".to_owned();
        err.append(db_table.name.as_str());
        err.append(
            "' has never been written to, so this server does not know the shape of its rows and can not turn JSON into one. The service which owns this entity has to write a row first - the shape travels with the write.",
        );
        return Err(err);
    }
    // More than one shape means a deploy is in flight, or two entities are
    // aimed at one table. Either way the caller has to say which - picking for
    // them would store a row under the version they did not mean, and the rows
    // outlive the guess.
    if schemas.len() > 1 {
        let mut err = "Table '".to_owned();
        err.append(db_table.name.as_str());
        err.append(
            "' holds rows of more than one entity version. Name the one to write through in `schema_id`: ",
        );
        err.append(list_ids(schemas).as_str());
        return Err(err);
    }
    Ok(&schemas[0])
}

/// What a caller hears of a schema which does not read back.
pub open spec fn unreadable_schema(schema_id: u64) -> Seq<char> {
    "Schema "@ + decimal(schema_id as nat)
        + " is stored but does not read back, so rows can not be built through it."@
}

/// The resolved schema, ready to turn JSON into a row; `built` is what resolving
/// it gave.
///
/// A schema which does not parse is the one case where the table knows a shape
/// and this surface still can not use it - the renderer shows such rows by field
/// number, but there is no field number to write *to*.
pub fn build_index<T>(built: Option<T>, schema: &EntitySchema) -> (r: Result<T, String>)
    ensures
        r is Ok <==> built is Some,
        r matches Ok(index) ==> built == Some(index),
        r matches Err(err) ==> err@ == unreadable_schema(schema.id),
{
    match built {
        Some(index) => Ok(index),
        None => {
            let mut err = "Schema ".to_owned();
            append_decimal(&mut err, schema.id as u128);
            err.append(" is stored but does not read back, so rows can not be built through it.");
            Err(err)
        },
    }
}

/// Why nothing is written, if nothing is: the server is still loading, there is
/// no such namespace, the write tools are shut, or there is no such table - in
/// this order.
pub open spec fn write_refusal<P, A>(
    app: AppContext<P, A>,
    namespace: Option<&str>,
    table_name: Seq<char>,
    missing_table: Seq<char>,
    now: DateTimeAsMicroseconds,
) -> Option<Seq<char>> {
    if namespace_refusal(app, namespace) is Some {
        namespace_refusal(app, namespace)
    } else if window_left(app.mcp_writes_opened, now) <= 0 {
        Some(writes_are_shut())
    } else if !has_table(app, meant_namespace(namespace), table_name) {
        Some(no_table(missing_table))
    } else {
        None
    }
}

/// Whether a namespace has a table of that name.
pub open spec fn has_table<P, A>(
    app: AppContext<P, A>,
    name_space: Seq<char>,
    table_name: Seq<char>,
) -> bool {
    exists|i: int|
        0 <= i < app.namespaces@.len() && (#[trigger] app.namespaces@[i]).name@ == name_space
            && has_name(app.namespaces@[i].tables@, table_name)
}

/// Whether this is the table of a namespace.
pub open spec fn is_table_of<P, A>(
    app: AppContext<P, A>,
    name_space: Seq<char>,
    table_name: Seq<char>,
    db_namespace: DbNamespace,
    db_table: DbTable,
) -> bool {
    &&& app.namespaces@.contains(db_namespace)
    &&& db_namespace.name@ == name_space
    &&& db_namespace.tables@.contains(db_table)
    &&& db_table.name@ == table_name
}

/// The table a write is meant for, once everything which could refuse it has
/// been asked.
pub fn get_table_to_write<'a, P, A>(
    app: &'a AppContext<P, A>,
    namespace: Option<&str>,
    table_name: &str,
    missing_table: &str,
    now: DateTimeAsMicroseconds,
) -> (r: Result<(&'a DbNamespace, &'a DbTable), String>)
    requires
        app.wf(),
    ensures
        answers(r, write_refusal(*app, namespace, table_name@, missing_table@, now)),
        r matches Ok(found) ==> is_table_of(
            *app,
            meant_namespace(namespace),
            table_name@,
            *found.0,
            *found.1,
        ),
{
    let db_namespace = match get_namespace(app, namespace) {
        Ok(db_namespace) => db_namespace,
        Err(err) => {
            return Err(err);
        },
    };
    match ensure_writes_are_open(app, now) {
        Ok(_) => {},
        Err(err) => {
            return Err(err);
        },
    }
    find_table(app, namespace, db_namespace, table_name, missing_table)
}

/// A table of a namespace which was found.
fn find_table<'a, P, A>(
    app: &'a AppContext<P, A>,
    namespace: Option<&str>,
    db_namespace: &'a DbNamespace,
    table_name: &str,
    missing_table: &str,
) -> (r: Result<(&'a DbNamespace, &'a DbTable), String>)
    requires
        app.wf(),
        app.namespaces@.contains(*db_namespace),
        db_namespace.name@ == meant_namespace(namespace),
    ensures
        answers(
            r,
            if has_table(*app, meant_namespace(namespace), table_name@) {
                None
            } else {
                Some(no_table(missing_table@))
            },
        ),
        r matches Ok(found) ==> is_table_of(
            *app,
            meant_namespace(namespace),
            table_name@,
            *found.0,
            *found.1,
        ),
{
    proof {
        let at = choose|at: int|
            0 <= at < app.namespaces@.len() && app.namespaces@[at] == *db_namespace;
        assert(app.namespaces@[at].name@ == meant_namespace(namespace));
        if has_table(*app, meant_namespace(namespace), table_name@) {
            let i = choose|i: int|
                0 <= i < app.namespaces@.len() && (#[trigger] app.namespaces@[i]).name@
                    == meant_namespace(namespace) && has_name(
                    app.namespaces@[i].tables@,
                    table_name@,
                );
            assert(app.namespaces@[i].called() == app.namespaces@[at].called());
            assert(i == at) by {
                if i < at {
                    assert(app.namespaces@[i].called() != app.namespaces@[at].called());
                } else if at < i {
                    assert(app.namespaces@[at].called() != app.namespaces@[i].called());
                }
            }
        }
    }
    match get_table(db_namespace, table_name, missing_table) {
        Ok(table) => Ok((db_namespace, table)),
        Err(err) => Err(err),
    }
}

/// Why nothing is read, if nothing is.
pub open spec fn read_refusal<P, A>(
    app: AppContext<P, A>,
    namespace: Option<&str>,
    table_name: Seq<char>,
    missing_table: Seq<char>,
) -> Option<Seq<char>> {
    if namespace_refusal(app, namespace) is Some {
        namespace_refusal(app, namespace)
    } else if !has_table(app, meant_namespace(namespace), table_name) {
        Some(no_table(missing_table))
    } else {
        None
    }
}

/// The table a read is meant for. Reading needs no permission.
pub fn get_table_to_read<'a, P, A>(
    app: &'a AppContext<P, A>,
    namespace: Option<&str>,
    table_name: &str,
    missing_table: &str,
) -> (r: Result<(&'a DbNamespace, &'a DbTable), String>)
    requires
        app.wf(),
    ensures
        answers(r, read_refusal(*app, namespace, table_name@, missing_table@)),
        r matches Ok(found) ==> is_table_of(
            *app,
            meant_namespace(namespace),
            table_name@,
            *found.0,
            *found.1,
        ),
{
    let db_namespace = match get_namespace(app, namespace) {
        Ok(db_namespace) => db_namespace,
        Err(err) => {
            return Err(err);
        },
    };
    find_table(app, namespace, db_namespace, table_name, missing_table)
}

/// While the write tools are shut, every write is refused, and every read is
/// answered as if they were open.
pub proof fn a_shut_window_refuses_every_write<P, A>(
    app: AppContext<P, A>,
    namespace: Option<&str>,
    table_name: Seq<char>,
    missing_table: Seq<char>,
    now: DateTimeAsMicroseconds,
)
    requires
        window_left(app.mcp_writes_opened, now) <= 0,
    ensures
        write_refusal(app, namespace, table_name, missing_table, now) is Some,
        read_refusal(app, namespace, table_name, missing_table) == read_refusal(
            (AppContext { mcp_writes_opened: Some(now), ..app }),
            namespace,
            table_name,
            missing_table,
        ),
{
    let open = AppContext { mcp_writes_opened: Some(now), ..app };
    assert(open.namespaces == app.namespaces);
    assert(has_table(open, meant_namespace(namespace), table_name) == has_table(
        app,
        meant_namespace(namespace),
        table_name,
    ));
}

}

//! The tools and prompts this server offers, in one place.

use vstd::prelude::*;

verus! {

/// Where an MCP client points itself.
pub const MCP_PATH: &'static str = "/mcp";

/// The tools by name. The reads come first and the writes after them, which is
/// also the order they are listed to the client in - and the order somebody
/// working through a table would take them in.
pub open spec fn tools() -> Seq<Seq<char>> {
    seq![
        "get_namespaces"@,
        "get_list_of_tables"@,
        "get_rows"@,
        "get_list_of_backups"@,
        "get_backup_tables"@,
        "get_backup_partitions"@,
        "get_backup_rows"@,
        "insert_or_replace_row"@,
        "bulk_insert_or_replace_rows"@,
        "delete_row"@,
        "bulk_delete_rows"@,
        "delete_partitions"@,
        "clean_table"@,
        "move_table_to_namespace"@,
        "restore_backup"@,
    ]
}

/// The prompts by name.
pub open spec fn prompts() -> Seq<Seq<char>> {
    seq!["entity_schema_policy"@, "mcp_writes_enable_policy"@]
}

/// What some names say.
pub open spec fn spelled(names: Seq<&'static str>) -> Seq<Seq<char>> {
    Seq::new(names.len(), |i: int| names[i]@)
}

/// The tools by name, in the order they are registered in.
pub fn tool_names() -> (r: Vec<&'static str>)
    ensures
        spelled(r@) == tools(),
{
    let r = vec![
        "get_namespaces",
        "get_list_of_tables",
        "get_rows",
        "get_list_of_backups",
        "get_backup_tables",
        "get_backup_partitions",
        "get_backup_rows",
        "insert_or_replace_row",
        "bulk_insert_or_replace_rows",
        "delete_row",
        "bulk_delete_rows",
        "delete_partitions",
        "clean_table",
        "move_table_to_namespace",
        "restore_backup",
    ];
    assert(spelled(r@) =~= tools());
    r
}

/// The prompts by name, in the order they are registered in.
pub fn prompt_names() -> (r: Vec<&'static str>)
    ensures
        spelled(r@) == prompts(),
{
    let r = vec!["entity_schema_policy", "mcp_writes_enable_policy"];
    assert(spelled(r@) =~= prompts());
    r
}

}

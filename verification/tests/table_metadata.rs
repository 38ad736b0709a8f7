//! What `tables.meta` says of a table.

use my_no_sql_server_grpc::db::{DateTimeAsMicroseconds, DbTableAttributes, EntitySchema};
use my_no_sql_server_grpc::persist::table_metadata_contract::{
    default_persist, to_optional_limit, TableMetadataFileContract, TableSchemaFileContract,
};
use serde_yaml::Value;

/// The contract as the keys of the file spell it.
fn from_yaml(text: &str) -> TableMetadataFileContract {
    let value: Value = serde_yaml::from_str(text).unwrap();
    let limit = |name: &str| {
        value
            .get(name)
            .and_then(Value::as_u64)
            .map(|limit| limit as usize)
    };
    TableMetadataFileContract {
        persist: value
            .get("Persist")
            .and_then(Value::as_bool)
            .unwrap_or_else(default_persist),
        max_partitions_amount: limit("MaxPartitionsAmount"),
        max_rows_per_partition_amount: limit("MaxRowsPerPartitionAmount"),
        created: value
            .get("Created")
            .and_then(Value::as_str)
            .map(|created| created.to_string()),
        schemas: value
            .get("Schemas")
            .and_then(Value::as_sequence)
            .map(|schemas| {
                schemas
                    .iter()
                    .map(|schema| TableSchemaFileContract {
                        id: schema.get("Id").and_then(Value::as_u64).unwrap(),
                        schema: schema
                            .get("Schema")
                            .and_then(Value::as_str)
                            .unwrap()
                            .to_string(),
                    })
                    .collect()
            })
            .unwrap_or_default(),
    }
}

fn now() -> DateTimeAsMicroseconds {
    DateTimeAsMicroseconds::new(1_786_346_055_530_973)
}

#[test]
fn a_file_written_before_compressed_was_cut_still_loads() {
    let contract = from_yaml(
        "Persist: true\nMaxPartitionsAmount: 9\nCompressed: true\nCreated: '2026-01-04T10:00:00+00:00'\n",
    );

    assert!(contract.persist);
    assert_eq!(contract.max_partitions_amount, Some(9));

    let attributes = DbTableAttributes::from_contract(&contract, None, now());
    assert_eq!(attributes.max_partitions_amount, Some(9));
}

#[test]
fn the_schemas_of_a_table_round_trip_through_its_metadata() {
    let attributes = DbTableAttributes {
        schemas: vec![
            EntitySchema {
                id: 7,
                schema: Vec::new(),
            },
            EntitySchema {
                id: 9,
                schema: vec![0, 1, 2, 250, 255],
            },
        ],
        ..DbTableAttributes::create_default(now())
    };

    let contract = TableMetadataFileContract::from_attributes(&attributes, "now".to_string());

    assert_eq!(contract.schemas[0].id, 7);
    assert_eq!(contract.schemas[1].id, 9);
    assert_eq!(contract.schemas[1].schema, "AAEC-v8");
    assert_eq!(contract.created.as_deref(), Some("now"));

    let restored = DbTableAttributes::from_contract(&contract, Some(now()), now());

    assert_eq!(restored.schemas.len(), 2);
    assert_eq!(restored.schemas[1].schema, vec![0, 1, 2, 250, 255]);
    assert!(restored.schemas[0].schema.is_empty());
}

#[test]
fn a_schema_which_does_not_decode_does_not_cost_the_table() {
    let contract = from_yaml(
        "Persist: true\nSchemas:\n- Id: 7\n  Schema: 'not base64!'\n- Id: 9\n  Schema: 'AAEC'\n",
    );

    let attributes = DbTableAttributes::from_contract(&contract, None, now());

    assert!(attributes.persist);
    assert_eq!(attributes.schemas.len(), 1);
    assert_eq!(attributes.schemas[0].id, 9);
    assert_eq!(attributes.schemas[0].schema, vec![0, 1, 2]);
}

#[test]
fn a_file_without_the_key_is_a_table_without_schemas() {
    let restored = from_yaml("Persist: true\nCreated: '2026-01-04T10:00:00+00:00'\n");
    assert!(restored.schemas.is_empty());
    let attributes = DbTableAttributes::from_contract(&restored, None, now());
    assert!(attributes.schemas.is_empty());
    // A moment nobody could read is the present one.
    assert_eq!(attributes.created.unix_microseconds, now().unix_microseconds);
}

#[test]
fn a_limit_of_zero_is_no_limit() {
    assert_eq!(to_optional_limit(Some(0)), None);
    assert_eq!(to_optional_limit(Some(3)), Some(3));
    assert_eq!(to_optional_limit(None), None);
    assert!(default_persist());
    let contract = from_yaml("MaxPartitionsAmount: 0\n");
    let attributes = DbTableAttributes::from_contract(&contract, None, now());
    assert!(attributes.persist);
    assert_eq!(attributes.max_partitions_amount, None);
}

#[test]
fn the_same_schema_named_twice_is_the_later_one() {
    let contract = from_yaml(
        "Persist: false\nSchemas:\n- Id: 9\n  Schema: 'AAEC'\n- Id: 1\n  Schema: 'AQ'\n- Id: 9\n  Schema: 'Ag'\n",
    );
    let attributes = DbTableAttributes::from_contract(&contract, None, now());
    assert!(!attributes.persist);
    assert_eq!(attributes.schemas.len(), 2);
    assert_eq!(attributes.schemas[0].id, 1);
    assert_eq!(attributes.schemas[1].schema, vec![2]);
}
